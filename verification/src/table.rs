//! The routing table: a growing vector of buckets, split on demand, whose
//! last bucket collects the nodes whose sorted bucket does not exist yet.

use vstd::prelude::*;
use crate::bt_dht::BtDhtHash;
use crate::bucket::Bucket;
use crate::bucket::find_eq_idx;
use crate::bucket::find_lower_idx;
use crate::bucket::lemma_find_eq_char;
use crate::bucket::lemma_find_lower_char;
use crate::bucket::spec_add_node;
use crate::bucket::wf_bucket;
use crate::id::NodeId;
use crate::krpc::KAddress;
use crate::id::spec_equal_bits;
use crate::node::Node;
use crate::node::NodeStatus;
use crate::node::node_eq;
use crate::node::occupied;
use crate::node::spec_status;
use crate::node::status_rank;

verus! {

/// Largest number of buckets a table can grow to: one per identifier bit.
pub const MAX_BUCKETS: usize = 160;

/// Routing table of the local node. The local id falls, by prefix, within
/// the range of the last bucket.
pub struct Table {
    pub buckets: Vec<Bucket>,
    pub node_id: BtDhtHash,
}

/// A node record sits correctly in bucket `b` of a table of `nlen`
/// buckets: occupied slots of a sorted bucket share exactly `b` leading
/// bits with the local id, occupied slots of the last bucket at least
/// `b`, and no occupied slot carries the local id itself.
pub open spec fn node_placed(self_id: Seq<u8>, nlen: int, b: int, n: Node) -> bool {
    occupied(n) ==> {
        let d = spec_equal_bits(self_id, n.id@);
        d < 160 && if b < nlen - 1 {
            d == b
        } else {
            d >= b
        }
    }
}

/// The bucket-vector invariant: between 1 and 160 well-formed buckets,
/// every occupied slot placed by its prefix length.
pub open spec fn wf_buckets(bs: Seq<Bucket>, id: Seq<u8>) -> bool {
    &&& 1 <= bs.len() <= 160
    &&& forall|b: int| 0 <= b < bs.len() ==> wf_bucket(#[trigger] bs[b].nodes@)
    &&& forall|b: int, i: int|
        0 <= b < bs.len() && 0 <= i < 8 ==> node_placed(
            id,
            bs.len() as int,
            b,
            #[trigger] bs[b].nodes@[i],
        )
}

/// The routing-table invariant.
pub open spec fn wf_table(t: Table) -> bool {
    wf_buckets(t.buckets@, t.node_id@)
}

/// Whether some bucket slot holds this exact node record.
pub open spec fn in_buckets(bs: Seq<Bucket>, n: Node) -> bool {
    exists|b: int, i: int| 0 <= b < bs.len() && 0 <= i < 8 && #[trigger] bs[b].nodes@[i] == n
}

/// Whether the table holds this exact node record in some slot.
pub open spec fn table_contains(t: Table, n: Node) -> bool {
    in_buckets(t.buckets@, n)
}

/// The bucket index a node with `num_same_bits` shared leading bits is
/// kept in while the table holds `num_buckets` buckets.
pub open spec fn spec_bucket_placement(num_same_bits: int, num_buckets: int) -> int {
    if num_same_bits >= num_buckets {
        num_buckets - 1
    } else {
        num_same_bits
    }
}

/// Take the number of leading bits shared with our id and calculate the
/// bucket index the node belongs to right now.
pub fn bucket_placement(num_same_bits: usize, num_buckets: usize) -> (r: usize)
    requires
        num_buckets >= 1,
    ensures
        r == spec_bucket_placement(num_same_bits as int, num_buckets as int),
        r < num_buckets,
{
    if num_same_bits >= num_buckets {
        num_buckets - 1
    } else {
        num_same_bits
    }
}

/// Whether the bucket at `bucket_index` may be split: only the last
/// bucket of a table that has not yet grown to 160 buckets.
pub fn can_split_bucket(num_buckets: usize, bucket_index: usize) -> (r: bool)
    requires
        num_buckets >= 1,
    ensures
        r == (bucket_index == num_buckets - 1 && bucket_index != 159),
{
    bucket_index == num_buckets - 1 && bucket_index != MAX_BUCKETS - 1
}

/// After a bucket-level add every slot holds its old record or the new one.
proof fn lemma_add_node_members(s: Seq<Node>, n: Node, now: u64)
    ensures
        spec_add_node(s, n, now).0.len() == s.len(),
        forall|i: int|
            0 <= i < s.len() ==> #[trigger] spec_add_node(s, n, now).0[i] == s[i] || spec_add_node(
                s,
                n,
                now,
            ).0[i] == n,
{
    lemma_find_eq_char(s, n, 0);
    lemma_find_lower_char(s, spec_status(n, now), now, 0);
}

/// Returns true if the overflow-checked index is in bounds of the length.
pub fn index_is_in_bounds(length: usize, checked_index: Option<usize>) -> (r: bool)
    ensures
        r == (checked_index matches Some(i) && i < length),
{
    match checked_index {
        Some(index) => index < length,
        None => false,
    }
}

/// The bucket index visited after `curr`, starting from `start`, in the
/// order start, start+1, start-1, start+2, start-2, and so on, skipping
/// out-of-range indices; nothing once every index has been considered.
pub open spec fn spec_next_bucket_index(num_buckets: int, start: int, curr: int) -> Option<int> {
    if curr == start {
        if start + 1 < num_buckets {
            Some(start + 1)
        } else if 0 <= start - 1 < num_buckets {
            Some(start - 1)
        } else {
            None
        }
    } else if curr > start {
        if 0 <= 2 * start - curr < num_buckets {
            Some(2 * start - curr)
        } else if curr + 1 < num_buckets {
            Some(curr + 1)
        } else {
            None
        }
    } else {
        if 0 <= 2 * start - curr + 1 < num_buckets {
            Some(2 * start - curr + 1)
        } else if 0 <= curr - 1 < num_buckets {
            Some(curr - 1)
        } else {
            None
        }
    }
}

/// Computes the next bucket index that should be visited given the number
/// of buckets, the starting index and the current index. Yields nothing
/// when all of the buckets have been visited.
pub fn next_bucket_index(num_buckets: usize, start_index: usize, curr_index: usize) -> (r: Option<
    usize,
>)
    requires
        curr_index <= 2 * num_buckets,
        start_index <= 2 * num_buckets,
        num_buckets <= 160,
    ensures
        match r {
            Some(i) => spec_next_bucket_index(
                num_buckets as int,
                start_index as int,
                curr_index as int,
            ) == Some(i as int),
            None => spec_next_bucket_index(
                num_buckets as int,
                start_index as int,
                curr_index as int,
            ) is None,
        },
{
    if curr_index == start_index {
        let right_index = start_index.checked_add(1);
        let left_index = start_index.checked_sub(1);
        if index_is_in_bounds(num_buckets, right_index) {
            Some(start_index + 1)
        } else if index_is_in_bounds(num_buckets, left_index) {
            Some(start_index - 1)
        } else {
            None
        }
    } else if curr_index > start_index {
        let offset = curr_index - start_index;
        let left_index = start_index.checked_sub(offset);
        let right_index = curr_index.checked_add(1);
        if index_is_in_bounds(num_buckets, left_index) {
            Some(start_index - offset)
        } else if index_is_in_bounds(num_buckets, right_index) {
            Some(curr_index + 1)
        } else {
            None
        }
    } else {
        let offset = (start_index - curr_index) + 1;
        let right_index = start_index.checked_add(offset);
        let left_index = curr_index.checked_sub(1);
        if index_is_in_bounds(num_buckets, right_index) {
            Some(start_index + offset)
        } else if index_is_in_bounds(num_buckets, left_index) {
            Some(curr_index - 1)
        } else {
            None
        }
    }
}

/// The navigation invariant of the closest-nodes walk: the indices
/// considered so far form the interval `[lo, hi]` around `start`, and
/// `curr`, the latest of them, sits at one of its ends.
pub open spec fn nav_inv(start: int, curr: int, lo: int, hi: int) -> bool {
    let cap: int = if start == 160 {
        160
    } else {
        159
    };
    ||| (curr == start && lo == start && hi == start && 0 <= start <= 160)
    ||| (curr > start && curr == hi && hi <= 159 && 0 <= start && lo == if 2 * start - hi + 1 >= 0 {
        2 * start - hi + 1
    } else {
        0
    })
    ||| (curr < start && curr == lo && lo >= 0 && start <= 160 && hi == if 2 * start - lo <= cap {
        2 * start - lo
    } else {
        cap
    })
}

/// One step of the walk lands just outside the considered interval and
/// re-establishes the invariant for the grown interval.
pub proof fn lemma_nav_step(start: int, curr: int, lo: int, hi: int)
    requires
        nav_inv(start, curr, lo, hi),
    ensures
        match spec_next_bucket_index(160, start, curr) {
            Some(nx) => {
                &&& 0 <= nx < 160
                &&& (nx == lo - 1 || nx == hi + 1)
                &&& nav_inv(
                    start,
                    nx,
                    if nx < lo {
                        nx
                    } else {
                        lo
                    },
                    if nx > hi {
                        nx
                    } else {
                        hi
                    },
                )
            },
            None => lo <= 0 && hi >= 159,
        },
{
}

/// Optionally returns the good nodes of the sorted bucket at `index`: the
/// last bucket is excluded until the table is fully expanded.
pub fn bucket_iterator(buckets: &Vec<Bucket>, index: usize, now: u64) -> (r: Option<Vec<Node>>)
    requires
        buckets@.len() >= 1,
    ensures
        ({
            let limit: int = if buckets@.len() == 160 {
                160
            } else {
                buckets@.len() - 1
            };
            match r {
                Some(v) => index < limit && v@ == buckets@[index as int].nodes@.filter(
                    |n: Node| spec_status(n, now) == NodeStatus::Good,
                ),
                None => index >= limit,
            }
        }),
{
    let limit = if buckets.len() == MAX_BUCKETS {
        MAX_BUCKETS
    } else {
        buckets.len() - 1
    };
    if index < limit {
        Some(buckets[index].good_nodes(now))
    } else {
        None
    }
}

/// Optionally returns the precomputed bucket positions for all nodes of
/// the assorted bucket; nothing once the table is fully expanded.
pub fn precompute_assorted_nodes(buckets: &Vec<Bucket>, self_node_id: &BtDhtHash) -> (r: Option<
    Vec<(usize, Node, bool)>,
>)
    requires
        buckets@.len() >= 1,
    ensures
        r is None <==> buckets@.len() == 160,
        r matches Some(v) ==> {
            &&& v@.len() == 8
            &&& forall|k: int|
                0 <= k < 8 ==> (#[trigger] v@[k]).1 == buckets@[buckets@.len() - 1].nodes@[k]
                    && v@[k].0 == spec_equal_bits(self_node_id@, v@[k].1.id@) && v@[k].2 == false
        },
{
    if buckets.len() == MAX_BUCKETS {
        return None;
    }
    let assorted_bucket = &buckets[buckets.len() - 1];
    let mut v: Vec<(usize, Node, bool)> = Vec::new();
    let mut k: usize = 0;
    while k < 8
        invariant
            0 <= k <= 8,
            v@.len() == k,
            assorted_bucket == buckets@[buckets@.len() - 1],
            buckets@.len() >= 1,
            forall|j: int|
                0 <= j < k ==> (#[trigger] v@[j]).1 == assorted_bucket.nodes@[j] && v@[j].0
                    == spec_equal_bits(self_node_id@, v@[j].1.id@) && v@[j].2 == false,
        decreases 8 - k,
    {
        let node = assorted_bucket.nodes[k];
        let bucket_index = self_node_id.equal_bits(node.id());
        v.push((bucket_index, node, false));
        k += 1;
    }
    Some(v)
}

/// The prefix length a node record shares with the local id.
pub open spec fn assigned(id: Seq<u8>, n: Node) -> int {
    spec_equal_bits(id, n.id@)
}

/// Whether the sequence holds this exact node record.
pub open spec fn seq_has(s: Seq<Node>, n: Node) -> bool {
    exists|j: int| 0 <= j < s.len() && #[trigger] s[j] == n
}

proof fn lemma_seq_has_extend(pre: Seq<Node>, post: Seq<Node>, n: Node)
    requires
        seq_has(pre, n),
        pre.len() <= post.len(),
        forall|j: int| 0 <= j < pre.len() ==> post[j] == pre[j],
    ensures
        seq_has(post, n),
{
    let j = choose|j: int| 0 <= j < pre.len() && #[trigger] pre[j] == n;
    assert(post[j] == n);
}

proof fn lemma_seq_has_push(s: Seq<Node>, x: Node, y: Node)
    requires
        seq_has(s, y),
    ensures
        seq_has(s.push(x), y),
{
    let j = choose|j: int| 0 <= j < s.len() && #[trigger] s[j] == y;
    assert(s.push(x)[j] == y);
}

/// Whether the walk over the closest nodes hands the slot `(b, i)` out:
/// good nodes of the sorted buckets, and every non-bad node of the
/// assorted bucket.
pub open spec fn cn_yields(bs: Seq<Bucket>, b: int, i: int, now: u64) -> bool {
    &&& 0 <= b < bs.len()
    &&& 0 <= i < 8
    &&& if bs.len() == 160 || b < bs.len() - 1 {
        spec_status(bs[b].nodes@[i], now) == NodeStatus::Good
    } else {
        spec_status(bs[b].nodes@[i], now) != NodeStatus::Bad
    }
}

/// The record sits at some slot the walk hands out: a good slot of a
/// sorted bucket, or a non-bad slot of the assorted bucket.
pub open spec fn cn_slot(bs: Seq<Bucket>, n: Node, now: u64) -> bool {
    exists|b: int, i: int| #[trigger] cn_yields(bs, b, i, now) && bs[b].nodes@[i] == n
}

/// The entries of the assorted precomputation that have not been handed
/// out yet hold nodes that are not in `out`.
pub open spec fn assorted_fresh(a: Option<Vec<(usize, Node, bool)>>, out: Seq<Node>) -> bool {
    match a {
        Some(v) => forall|k: int, j: int|
            0 <= k < v@.len() && !(#[trigger] v@[k]).2 && occupied(v@[k].1) && 0 <= j < out.len()
                ==> #[trigger] out[j] != v@[k].1,
        None => true,
    }
}

/// The structural tie between the precomputation and the bucket vector.
pub open spec fn assorted_wf(
    a: Option<Vec<(usize, Node, bool)>>,
    bs: Seq<Bucket>,
    id: Seq<u8>,
) -> bool {
    match a {
        Some(v) => bs.len() < 160 && v@.len() == 8 && forall|k: int|
            0 <= k < 8 ==> (#[trigger] v@[k]).1 == bs[bs.len() - 1].nodes@[k] && v@[k].0 as int
                == assigned(id, v@[k].1),
        None => bs.len() == 160,
    }
}

/// The bucket positions that count as sorted: all of them once the
/// table is fully expanded, else all but the last.
pub open spec fn sorted_limit(bs: Seq<Bucket>) -> int {
    if bs.len() == 160 {
        160
    } else {
        bs.len() - 1
    }
}

/// Append every node the visit of `index` hands out: first the good nodes
/// of the sorted bucket at `index`, when one exists, then the non-bad
/// assorted nodes that belong at `index` and have not been handed out.
/// Everything the visit owes is in `out` afterwards.
fn collect_index(
    out: &mut Vec<Node>,
    assorted: &mut Option<Vec<(usize, Node, bool)>>,
    buckets: &Vec<Bucket>,
    self_node_id: &BtDhtHash,
    index: usize,
    now: u64,
)
    requires
        wf_buckets(buckets@, self_node_id@),
        assorted_wf(*old(assorted), buckets@, self_node_id@),
        assorted_fresh(*old(assorted), old(out)@),
        forall|i: int, j: int| 0 <= i < j < old(out)@.len() ==> old(out)@[i] != old(out)@[j],
        forall|j: int|
            0 <= j < old(out)@.len() ==> occupied(#[trigger] old(out)@[j]) && assigned(
                self_node_id@,
                old(out)@[j],
            ) != index as int,
        match *old(assorted) {
            Some(v) => forall|k: int|
                0 <= k < 8 && (#[trigger] v@[k]).2 ==> seq_has(old(out)@, v@[k].1),
            None => true,
        },
    ensures
        assorted_wf(*final(assorted), buckets@, self_node_id@),
        assorted_fresh(*final(assorted), final(out)@),
        final(out)@.len() >= old(out)@.len(),
        forall|j: int| 0 <= j < old(out)@.len() ==> final(out)@[j] == old(out)@[j],
        forall|i: int, j: int| 0 <= i < j < final(out)@.len() ==> final(out)@[i] != final(out)@[j],
        forall|j: int|
            old(out)@.len() <= j < final(out)@.len() ==> occupied(#[trigger] final(out)@[j])
                && assigned(self_node_id@, final(out)@[j]) == index as int && spec_status(
                final(out)@[j],
                now,
            ) != NodeStatus::Bad && in_buckets(buckets@, final(out)@[j]) && cn_slot(
                buckets@,
                final(out)@[j],
                now,
            ),
        (index as int) < sorted_limit(buckets@) ==> forall|i: int|
            0 <= i < 8 && spec_status(#[trigger] buckets@[index as int].nodes@[i], now)
                == NodeStatus::Good ==> seq_has(final(out)@, buckets@[index as int].nodes@[i]),
        match *final(assorted) {
            Some(v) => forall|k: int|
                0 <= k < 8 && (#[trigger] v@[k]).0 == index && spec_status(v@[k].1, now)
                    != NodeStatus::Bad ==> seq_has(final(out)@, v@[k].1),
            None => true,
        },
        match *final(assorted) {
            Some(v) => forall|k: int|
                0 <= k < 8 && (#[trigger] v@[k]).2 ==> seq_has(final(out)@, v@[k].1),
            None => true,
        },
{
    let ghost base = out@.len() as int;
    let nb = buckets.len();
    let limit = if nb == MAX_BUCKETS {
        MAX_BUCKETS
    } else {
        nb - 1
    };
    if index < limit {
        let bucket = &buckets[index];
        let mut i: usize = 0;
        let ghost mut slots: Seq<int> = Seq::empty();
        while i < 8
            invariant
                0 <= i <= 8,
                wf_buckets(buckets@, self_node_id@),
                nb == buckets@.len(),
                0 <= index < buckets@.len(),
                (index as int) < sorted_limit(buckets@),
                bucket == buckets@[index as int],
                base == old(out)@.len(),
                out@.len() == base + slots.len(),
                forall|j: int| 0 <= j < base ==> out@[j] == old(out)@[j],
                forall|j: int|
                    0 <= j < slots.len() ==> 0 <= #[trigger] slots[j] < i && out@[base + j]
                        == bucket.nodes@[slots[j]],
                forall|j1: int, j2: int| 0 <= j1 < j2 < slots.len() ==> slots[j1] < slots[j2],
                forall|i2: int, j: int| 0 <= i2 < j < out@.len() ==> out@[i2] != out@[j],
                forall|j: int|
                    base <= j < out@.len() ==> occupied(#[trigger] out@[j]) && assigned(
                        self_node_id@,
                        out@[j],
                    ) == index as int && spec_status(out@[j], now) != NodeStatus::Bad
                        && in_buckets(buckets@, out@[j]) && cn_slot(buckets@, out@[j], now),
                forall|j: int|
                    0 <= j < base ==> occupied(#[trigger] out@[j]) && assigned(
                        self_node_id@,
                        out@[j],
                    ) != index as int,
                forall|si: int|
                    0 <= si < i && spec_status(#[trigger] bucket.nodes@[si], now)
                        == NodeStatus::Good ==> seq_has(out@, bucket.nodes@[si]),
                assorted_wf(*assorted, buckets@, self_node_id@),
                assorted_fresh(*assorted, out@),
                *assorted == *old(assorted),
                match *assorted {
                    Some(v) => forall|k: int|
                        0 <= k < 8 && (#[trigger] v@[k]).2 ==> seq_has(out@, v@[k].1),
                    None => true,
                },
            decreases 8 - i,
        {
            if bucket.nodes[i].status(now) == NodeStatus::Good {
                let x = bucket.nodes[i];
                proof {
                    assert(occupied(x));
                    assert(node_placed(self_node_id@, buckets@.len() as int, index as int, x));
                    assert(assigned(self_node_id@, x) == index as int);
                    assert(in_buckets(buckets@, x)) by {
                        assert(buckets@[index as int].nodes@[i as int] == x);
                    }
                    assert(cn_slot(buckets@, x, now)) by {
                        assert(cn_yields(buckets@, index as int, i as int, now));
                        assert(buckets@[index as int].nodes@[i as int] == x);
                    }
                    assert(wf_bucket(bucket.nodes@));
                    assert forall|j: int| 0 <= j < out@.len() implies out@[j] != x by {
                        if j < base {
                            assert(assigned(self_node_id@, out@[j]) != index as int);
                        } else {
                            let sj = slots[j - base];
                            assert(out@[j] == bucket.nodes@[sj]);
                            assert(occupied(bucket.nodes@[sj]));
                            if bucket.nodes@[sj] == x {
                                assert(node_eq(bucket.nodes@[sj], bucket.nodes@[i as int]));
                            }
                        }
                    }
                    assert(assorted_fresh(*assorted, out@.push(x))) by {
                        match *assorted {
                            Some(v) => {
                                assert forall|kk: int, j: int|
                                    0 <= kk < v@.len() && !(#[trigger] v@[kk]).2 && occupied(
                                        v@[kk].1,
                                    ) && 0 <= j < out@.push(x).len() implies #[trigger] out@.push(
                                    x,
                                )[j] != v@[kk].1 by {
                                    if j == out@.len() {
                                        assert(node_placed(
                                            self_node_id@,
                                            buckets@.len() as int,
                                            buckets@.len() - 1,
                                            v@[kk].1,
                                        ));
                                        assert(assigned(self_node_id@, v@[kk].1) >= buckets@.len()
                                            - 1);
                                        if v@[kk].1 == x {
                                            assert(assigned(self_node_id@, x) == index as int);
                                        }
                                    }
                                }
                            },
                            None => {},
                        }
                    }
                }
                let ghost pre_out = out@;
                out.push(x);
                proof {
                    slots = slots.push(i as int);
                    assert forall|si: int|
                        0 <= si < i + 1 && spec_status(#[trigger] bucket.nodes@[si], now)
                            == NodeStatus::Good implies seq_has(out@, bucket.nodes@[si]) by {
                        if si == i as int {
                            assert(out@[out@.len() - 1] == bucket.nodes@[si]);
                        } else {
                            lemma_seq_has_push(pre_out, x, bucket.nodes@[si]);
                        }
                    }
                    match assorted {
                        Some(v) => {
                            assert forall|k: int|
                                0 <= k < 8 && (#[trigger] v@[k]).2 implies seq_has(
                                out@,
                                v@[k].1,
                            ) by {
                                lemma_seq_has_push(pre_out, x, v@[k].1);
                            }
                        },
                        None => {},
                    }
                }
            }
            i += 1;
        }
    }
    let ghost mid = out@;
    match assorted {
        Some(v) => {
            let mut k: usize = 0;
            while k < 8
                invariant
                    0 <= k <= 8,
                    wf_buckets(buckets@, self_node_id@),
                    v@.len() == 8,
                    buckets@.len() < 160,
                    forall|j: int|
                        0 <= j < 8 ==> (#[trigger] v@[j]).1 == buckets@[buckets@.len()
                            - 1].nodes@[j] && v@[j].0 as int == assigned(self_node_id@, v@[j].1),
                    forall|j: int| 0 <= j < base ==> out@[j] == old(out)@[j],
                    out@.len() >= base,
                    base == old(out)@.len(),
                    forall|i2: int, j: int| 0 <= i2 < j < out@.len() ==> out@[i2] != out@[j],
                    forall|j: int|
                        base <= j < out@.len() ==> occupied(#[trigger] out@[j]) && assigned(
                            self_node_id@,
                            out@[j],
                        ) == index as int && spec_status(out@[j], now) != NodeStatus::Bad
                            && in_buckets(buckets@, out@[j]) && cn_slot(buckets@, out@[j], now),
                    forall|j: int|
                        0 <= j < base ==> occupied(#[trigger] out@[j]) && assigned(
                            self_node_id@,
                            out@[j],
                        ) != index as int,
                    forall|kk: int, j: int|
                        0 <= kk < 8 && !(#[trigger] v@[kk]).2 && occupied(v@[kk].1) && 0 <= j
                            < out@.len() ==> #[trigger] out@[j] != v@[kk].1,
                    (index as int) < sorted_limit(buckets@) ==> forall|si: int|
                        0 <= si < 8 && spec_status(
                            #[trigger] buckets@[index as int].nodes@[si],
                            now,
                        ) == NodeStatus::Good ==> seq_has(out@, buckets@[index as int].nodes@[si]),
                    forall|kk: int|
                        0 <= kk < 8 && (#[trigger] v@[kk]).2 ==> seq_has(out@, v@[kk].1),
                    forall|kk: int|
                        0 <= kk < k && (#[trigger] v@[kk]).0 == index && spec_status(
                            v@[kk].1,
                            now,
                        ) != NodeStatus::Bad ==> seq_has(out@, v@[kk].1),
                decreases 8 - k,
            {
                let e = v[k];
                if e.0 == index && !e.2 {
                    let st = e.1.status(now);
                    if st != NodeStatus::Bad {
                        proof {
                            assert(occupied(e.1));
                            assert(in_buckets(buckets@, e.1)) by {
                                assert(buckets@[buckets@.len() - 1].nodes@[k as int] == e.1);
                            }
                            assert(cn_slot(buckets@, e.1, now)) by {
                                assert(cn_yields(buckets@, buckets@.len() - 1, k as int, now));
                                assert(buckets@[buckets@.len() - 1].nodes@[k as int] == e.1);
                            }
                            assert(assigned(self_node_id@, e.1) == index as int);
                        }
                        v[k] = (e.0, e.1, true);
                        let ghost pre_out = out@;
                        out.push(e.1);
                        proof {
                            assert(wf_bucket(buckets@[buckets@.len() - 1].nodes@));
                            assert forall|kk: int, j: int|
                                0 <= kk < 8 && !(#[trigger] v@[kk]).2 && occupied(v@[kk].1) && 0
                                    <= j < out@.len() implies #[trigger] out@[j] != v@[kk].1 by {
                                if j == out@.len() - 1 {
                                    let bn = buckets@[buckets@.len() - 1].nodes@;
                                    if kk < k as int {
                                        assert(occupied(bn[k as int]));
                                        assert(!node_eq(bn[kk], bn[k as int]));
                                    } else if kk > k as int {
                                        assert(occupied(bn[kk]));
                                        assert(!node_eq(bn[k as int], bn[kk]));
                                    }
                                }
                            }
                            assert(seq_has(out@, e.1)) by {
                                assert(out@[out@.len() - 1] == e.1);
                            }
                            assert forall|kk: int|
                                0 <= kk < 8 && (#[trigger] v@[kk]).2 implies seq_has(
                                out@,
                                v@[kk].1,
                            ) by {
                                if kk != k as int {
                                    lemma_seq_has_push(pre_out, e.1, v@[kk].1);
                                }
                            }
                            assert forall|kk: int|
                                0 <= kk < k + 1 && (#[trigger] v@[kk]).0 == index && spec_status(
                                    v@[kk].1,
                                    now,
                                ) != NodeStatus::Bad implies seq_has(out@, v@[kk].1) by {
                                if kk != k as int {
                                    lemma_seq_has_push(pre_out, e.1, v@[kk].1);
                                }
                            }
                            if (index as int) < sorted_limit(buckets@) {
                                assert forall|si: int|
                                    0 <= si < 8 && spec_status(
                                        #[trigger] buckets@[index as int].nodes@[si],
                                        now,
                                    ) == NodeStatus::Good implies seq_has(
                                    out@,
                                    buckets@[index as int].nodes@[si],
                                ) by {
                                    lemma_seq_has_push(
                                        pre_out,
                                        e.1,
                                        buckets@[index as int].nodes@[si],
                                    );
                                }
                            }
                        }
                    }
                }
                k += 1;
            }
        },
        None => {},
    }
}

/// In the bucket the newcomer's prefix selects, an equal record at
/// least as alive as the newcomer holds a seat.
pub open spec fn equal_seat_kept(t: Table, n: Node, now: u64) -> bool {
    let bi = spec_bucket_placement(
        spec_equal_bits(t.node_id@, n.id@),
        t.buckets@.len() as int,
    );
    exists|i: int|
        0 <= i < 8 && node_eq(#[trigger] t.buckets@[bi].nodes@[i], n) && occupied(
            t.buckets@[bi].nodes@[i],
        ) && status_rank(spec_status(t.buckets@[bi].nodes@[i], now)) >= status_rank(
            spec_status(n, now),
        )
}

/// The bucket the newcomer's prefix selects is full of slots ranking at
/// least as high, holds no equal record, and may not be split.
pub open spec fn bucket_rejects(t: Table, n: Node, now: u64) -> bool {
    let bi = spec_bucket_placement(
        spec_equal_bits(t.node_id@, n.id@),
        t.buckets@.len() as int,
    );
    let bs = t.buckets@[bi].nodes@;
    &&& find_eq_idx(bs, n, 0) == 8
    &&& find_lower_idx(bs, spec_status(n, now), now, 0) == 8
    &&& !(bi == t.buckets@.len() - 1 && bi != 159)
}

/// The record a slot holds after the table notes a request from the
/// peer `(id, addr)`: the occupied slot standing for that peer learns
/// the time, every other slot keeps its record.
pub open spec fn marked_remote_request(o: Node, id: Seq<u8>, addr: KAddress, now: u64) -> Node {
    if occupied(o) && o.id@ == id && o.addr == addr {
        Node { last_request: Some(now), ..o }
    } else {
        o
    }
}

/// The record a slot holds after the table notes a response from the
/// peer `(id, addr)`: the occupied slot standing for that peer becomes
/// fresh again, every other slot keeps its record.
pub open spec fn marked_remote_response(o: Node, id: Seq<u8>, addr: KAddress, now: u64) -> Node {
    if occupied(o) && o.id@ == id && o.addr == addr {
        Node { last_response: Some(now), refresh_requests: 0, ..o }
    } else {
        o
    }
}

/// The record a slot holds after the table notes a request of ours
/// toward `addr`: every occupied, not currently good slot with that
/// address uses one refresh request (the counter saturates at the
/// machine limit), every other slot keeps its record.
pub open spec fn marked_local_request(o: Node, addr: KAddress, now: u64) -> Node {
    if occupied(o) && o.addr == addr && spec_status(o, now) != NodeStatus::Good
        && o.refresh_requests < usize::MAX {
        Node { refresh_requests: (o.refresh_requests + 1) as usize, ..o }
    } else {
        o
    }
}

/// A matching occupied slot can only sit in the bucket the peer's prefix
/// selects.
proof fn lemma_match_in_selected_bucket(t: Table, id: Seq<u8>, b: int, i: int)
    requires
        wf_table(t),
        0 <= b < t.buckets@.len(),
        0 <= i < 8,
        occupied(t.buckets@[b].nodes@[i]),
        t.buckets@[b].nodes@[i].id@ == id,
    ensures
        b == spec_bucket_placement(
            spec_equal_bits(t.node_id@, id),
            t.buckets@.len() as int,
        ),
{
    assert(node_placed(t.node_id@, t.buckets@.len() as int, b, t.buckets@[b].nodes@[i]));
}

/// An occupied record found in a well-formed bucket vector never carries
/// the local id.
proof fn lemma_in_buckets_assigned(bs: Seq<Bucket>, id: Seq<u8>, n: Node)
    requires
        wf_buckets(bs, id),
        in_buckets(bs, n),
        occupied(n),
    ensures
        0 <= assigned(id, n) < 160,
{
    let (b, i): (int, int) = choose|b: int, i: int|
        0 <= b < bs.len() && 0 <= i < 8 && #[trigger] bs[b].nodes@[i] == n;
    assert(node_placed(id, bs.len() as int, b, n));
    crate::id::lemma_equal_bits_char(id, n.id@);
}

/// Iterator over the closest nodes to a target: the nodes a walk of the
/// bucket indices in closeness order hands out, each at most once.
pub struct ClosestNodes {
    pub nodes: Vec<Node>,
    pub pos: usize,
    pub now: u64,
    pub id_g: Ghost<Seq<u8>>,
    pub tgt_g: Ghost<Seq<u8>>,
}

/// The iterator invariant: every entry is a live occupied record, no two
/// entries are the same record, and entries already handed out sit before
/// `pos`.
pub open spec fn cn_wf(c: ClosestNodes) -> bool {
    &&& c.pos <= c.nodes@.len()
    &&& forall|i: int, j: int| 0 <= i < j < c.nodes@.len() ==> c.nodes@[i] != c.nodes@[j]
    &&& forall|i: int|
        0 <= i < c.nodes@.len() ==> occupied(#[trigger] c.nodes@[i]) && spec_status(
            c.nodes@[i],
            c.now,
        ) != NodeStatus::Bad && 0 <= assigned(c.id_g@, c.nodes@[i]) < 160
}

impl ClosestNodes {
    /// Walk the bucket indices outward from the prefix length shared with
    /// the target and gather what each visit hands out.
    fn new(buckets: &Vec<Bucket>, self_node_id: BtDhtHash, other_node_id: BtDhtHash, now: u64) -> (r:
        ClosestNodes)
        requires
            wf_buckets(buckets@, self_node_id@),
        ensures
            cn_wf(r),
            r.pos == 0,
            r.now == now,
            r.id_g@ == self_node_id@,
            r.tgt_g@ == other_node_id@,
            forall|k: int| 0 <= k < r.nodes@.len() ==> in_buckets(buckets@, #[trigger] r.nodes@[k]),
            forall|k: int| 0 <= k < r.nodes@.len() ==> cn_slot(buckets@, #[trigger] r.nodes@[k], now),
            forall|b: int, i: int|
                #[trigger] cn_yields(buckets@, b, i, now) ==> seq_has(
                    r.nodes@,
                    buckets@[b].nodes@[i],
                ),
            r.nodes@.len() > 0 && assigned(self_node_id@, r.nodes@[0]) == spec_equal_bits(
                self_node_id@,
                other_node_id@,
            ) ==> forall|k: int|
                0 < k < r.nodes@.len() && assigned(self_node_id@, #[trigger] r.nodes@[k])
                    != spec_equal_bits(self_node_id@, other_node_id@) ==> spec_equal_bits(
                    r.nodes@[k].id@,
                    other_node_id@,
                ) <= spec_equal_bits(r.nodes@[0].id@, other_node_id@),
    {
        let start_index = self_node_id.equal_bits(&other_node_id);
        let mut assorted = precompute_assorted_nodes(buckets, &self_node_id);
        let mut out: Vec<Node> = Vec::new();
        collect_index(&mut out, &mut assorted, buckets, &self_node_id, start_index, now);
        let ghost mut lo: int = start_index as int;
        let ghost mut hi: int = start_index as int;
        proof {
            assert forall|j: int| 0 <= j < out@.len() implies lo <= assigned(
                self_node_id@,
                #[trigger] out@[j],
            ) <= hi && assigned(self_node_id@, out@[j]) < 160 by {
                lemma_in_buckets_assigned(buckets@, self_node_id@, out@[j]);
            }
        }
        let mut cur: usize = start_index;
        let mut more: usize = 1;
        while more == 1
            invariant
                wf_buckets(buckets@, self_node_id@),
                start_index <= 160,
                more == 1 ==> nav_inv(start_index as int, cur as int, lo, hi),
                cur <= 160,
                lo <= hi,
                assorted_wf(assorted, buckets@, self_node_id@),
                assorted_fresh(assorted, out@),
                forall|i: int, j: int| 0 <= i < j < out@.len() ==> out@[i] != out@[j],
                forall|j: int|
                    0 <= j < out@.len() ==> occupied(#[trigger] out@[j]) && spec_status(
                        out@[j],
                        now,
                    ) != NodeStatus::Bad && in_buckets(buckets@, out@[j]) && cn_slot(
                        buckets@,
                        out@[j],
                        now,
                    ) && lo <= assigned(self_node_id@, out@[j]) <= hi && assigned(
                        self_node_id@,
                        out@[j],
                    ) < 160,
                match assorted {
                    Some(v) => forall|k: int|
                        0 <= k < 8 && (#[trigger] v@[k]).2 ==> seq_has(out@, v@[k].1),
                    None => true,
                },
                match assorted {
                    Some(v) => forall|k: int|
                        0 <= k < 8 && lo <= (#[trigger] v@[k]).0 <= hi && spec_status(
                            v@[k].1,
                            now,
                        ) != NodeStatus::Bad ==> seq_has(out@, v@[k].1),
                    None => true,
                },
                forall|b: int, i: int|
                    0 <= b < buckets@.len() && b < sorted_limit(buckets@) && lo <= b <= hi && 0
                        <= i < 8 && spec_status(#[trigger] buckets@[b].nodes@[i], now)
                        == NodeStatus::Good ==> seq_has(out@, buckets@[b].nodes@[i]),
                more <= 1,
                more == 0 ==> lo <= 0 && hi >= 159,
            decreases 400 - (hi - lo), more,
        {
            match next_bucket_index(MAX_BUCKETS, start_index, cur) {
                Some(nx) => {
                    proof {
                        lemma_nav_step(start_index as int, cur as int, lo, hi);
                    }
                    cur = nx;
                    let ghost mid_out = out@;
                    let ghost lo0 = lo;
                    let ghost hi0 = hi;
                    let ghost mid_as = assorted;
                    collect_index(&mut out, &mut assorted, buckets, &self_node_id, cur, now);
                    proof {
                        if (nx as int) < lo {
                            lo = nx as int;
                        } else {
                            hi = nx as int;
                        }
                        match &assorted {
                            Some(v) => {
                                let w = mid_as->Some_0;
                                assert forall|k: int|
                                    0 <= k < 8 && lo <= (#[trigger] v@[k]).0 <= hi && spec_status(
                                        v@[k].1,
                                        now,
                                    ) != NodeStatus::Bad implies seq_has(out@, v@[k].1) by {
                                    if v@[k].0 != nx {
                                        assert(w@[k].1 == v@[k].1);
                                        assert(w@[k].0 as int == assigned(self_node_id@, w@[k].1));
                                        assert(v@[k].0 as int == assigned(self_node_id@, v@[k].1));
                                        assert(w@[k].0 == v@[k].0);
                                        assert(lo0 <= w@[k].0 <= hi0);
                                        assert(seq_has(mid_out, w@[k].1));
                                        lemma_seq_has_extend(mid_out, out@, v@[k].1);
                                    }
                                }
                            },
                            None => {},
                        }
                        assert forall|b: int, i: int|
                            0 <= b < buckets@.len() && b < sorted_limit(buckets@) && lo <= b <= hi
                                && 0 <= i < 8 && spec_status(
                                #[trigger] buckets@[b].nodes@[i],
                                now,
                            ) == NodeStatus::Good implies seq_has(out@, buckets@[b].nodes@[i]) by {
                            if b != nx as int {
                                assert(lo0 <= b <= hi0);
                                assert(seq_has(mid_out, buckets@[b].nodes@[i]));
                                lemma_seq_has_extend(mid_out, out@, buckets@[b].nodes@[i]);
                            }
                        }
                    }
                },
                None => {
                    proof {
                        lemma_nav_step(start_index as int, cur as int, lo, hi);
                    }
                    more = 0;
                },
            }
        }
        proof {
            assert forall|b: int, i: int| #[trigger] cn_yields(buckets@, b, i, now) implies seq_has(
                out@,
                buckets@[b].nodes@[i],
            ) by {
                let n = buckets@[b].nodes@[i];
                if buckets@.len() == 160 || b < buckets@.len() - 1 {
                    assert(b < sorted_limit(buckets@));
                    assert(lo <= b <= hi);
                } else {
                    match &assorted {
                        Some(v) => {
                            assert(v@[i].1 == n);
                            assert(occupied(n));
                            assert(in_buckets(buckets@, n)) by {
                                assert(buckets@[b].nodes@[i] == n);
                            }
                            lemma_in_buckets_assigned(buckets@, self_node_id@, n);
                            assert(lo <= v@[i].0 <= hi);
                        },
                        None => {},
                    }
                }
            }
        }
        proof {
            if out@.len() > 0 && assigned(self_node_id@, out@[0]) == spec_equal_bits(
                self_node_id@,
                other_node_id@,
            ) {
                assert forall|k: int|
                    0 < k < out@.len() && assigned(self_node_id@, #[trigger] out@[k])
                        != spec_equal_bits(self_node_id@, other_node_id@) implies spec_equal_bits(
                    out@[k].id@,
                    other_node_id@,
                ) <= spec_equal_bits(out@[0].id@, other_node_id@) by {
                    lemma_closest_first_max(
                        self_node_id@,
                        other_node_id@,
                        out@[0].id@,
                        out@[k].id@,
                    );
                }
            }
        }
        ClosestNodes {
            nodes: out,
            pos: 0,
            now,
            id_g: Ghost(self_node_id@),
            tgt_g: Ghost(other_node_id@),
        }
    }

    /// The next of the gathered nodes, in visiting order; nothing once
    /// every entry has been handed out.
    pub fn next(&mut self) -> (r: Option<Node>)
        requires
            cn_wf(*old(self)),
        ensures
            cn_wf(*final(self)),
            final(self).nodes == old(self).nodes,
            final(self).now == old(self).now,
            final(self).id_g == old(self).id_g,
            final(self).tgt_g == old(self).tgt_g,
            old(self).pos < old(self).nodes@.len() ==> r == Some(
                old(self).nodes@[old(self).pos as int],
            ) && final(self).pos == old(self).pos + 1,
            old(self).pos >= old(self).nodes@.len() ==> r is None && final(self).pos == old(
                self,
            ).pos,
    {
        if self.pos < self.nodes.len() {
            let n = self.nodes[self.pos];
            self.pos = self.pos + 1;
            Some(n)
        } else {
            None
        }
    }
}

/// Bucket-granular closeness: a node that shares as many leading bits
/// with the local id as the target does is at least as close to the
/// target as any node assigned to a different bucket.
pub proof fn lemma_closest_first_max(
    self_id: Seq<u8>,
    target: Seq<u8>,
    first: Seq<u8>,
    other: Seq<u8>,
)
    requires
        spec_equal_bits(self_id, first) == spec_equal_bits(self_id, target),
        spec_equal_bits(self_id, other) != spec_equal_bits(self_id, target),
    ensures
        spec_equal_bits(other, target) <= spec_equal_bits(first, target),
{
    crate::id::lemma_equal_bits_sym(self_id, first);
    crate::id::lemma_equal_bits_min(first, self_id, target);
    crate::id::lemma_equal_bits_sym(self_id, other);
    crate::id::lemma_equal_bits_min(other, self_id, target);
}

/// Copy a bucket vector.
fn clone_buckets(v: &Vec<Bucket>) -> (r: Vec<Bucket>)
    ensures
        r@ == v@,
{
    let mut out: Vec<Bucket> = Vec::new();
    let mut i: usize = 0;
    while i < v.len()
        invariant
            0 <= i <= v@.len(),
            out@ == v@.subrange(0, i as int),
        decreases v@.len() - i,
    {
        out.push(v[i]);
        proof {
            assert(out@ =~= v@.subrange(0, i + 1));
        }
        i += 1;
    }
    proof {
        assert(out@ =~= v@);
    }
    out
}

/// The state of one bucket position as the bucket iterator reports it.
#[derive(Copy, Clone)]
pub enum BucketContents {
    /// A placeholder for a sorted bucket that has not been created yet.
    Empty,
    /// A bucket holding nodes that all share the same prefix length.
    Sorted(Bucket),
    /// The last bucket, holding nodes of assorted prefix lengths.
    Assorted(Bucket),
}

/// Iterator over the 160 bucket positions followed by the assorted
/// bucket, reporting the state of each.
pub struct Buckets {
    pub buckets: Vec<Bucket>,
    pub index: usize,
}

impl Buckets {
    fn new(buckets: &Vec<Bucket>) -> (r: Buckets)
        ensures
            r.buckets@ == buckets@,
            r.index == 0,
    {
        Buckets { buckets: clone_buckets(buckets), index: 0 }
    }

    /// The contents of the next bucket position: a sorted bucket or a
    /// placeholder for each position below 160, then the assorted bucket
    /// while the table is not fully expanded.
    pub fn next(&mut self) -> (r: Option<BucketContents>)
        ensures
            final(self).buckets == old(self).buckets,
            ({
                let idx = old(self).index as int;
                let len = old(self).buckets@.len() as int;
                if idx > 160 {
                    r is None && final(self).index == idx
                } else if idx == 160 {
                    final(self).index == idx + 1 && if len == 160 || len == 0 {
                        r is None
                    } else {
                        r matches Some(c) && (c matches BucketContents::Assorted(b) && b == old(
                            self,
                        ).buckets@[len - 1])
                    }
                } else {
                    final(self).index == idx + 1 && if idx + 1 < len || len == 160 {
                        r matches Some(c) && (c matches BucketContents::Sorted(b) && b == old(
                            self,
                        ).buckets@[idx])
                    } else {
                        r matches Some(c) && c is Empty
                    }
                }
            }),
    {
        if self.index > MAX_BUCKETS {
            return None;
        } else if self.index == MAX_BUCKETS {
            self.index += 1;
            return if self.buckets.len() == MAX_BUCKETS || self.buckets.len() == 0 {
                None
            } else {
                Some(BucketContents::Assorted(self.buckets[self.buckets.len() - 1]))
            };
        }
        if self.index + 1 < self.buckets.len() || self.buckets.len() == MAX_BUCKETS {
            self.index += 1;
            Some(BucketContents::Sorted(self.buckets[self.index - 1]))
        } else {
            self.index += 1;
            Some(BucketContents::Empty)
        }
    }
}

impl Table {
    /// A fresh table with a single, assorted bucket.
    pub fn new(node_id: BtDhtHash) -> (r: Table)
        ensures
            wf_table(r),
            r.node_id == node_id,
            r.buckets@.len() == 1,
            forall|n: Node| occupied(n) ==> !table_contains(r, n),
    {
        let mut buckets: Vec<Bucket> = Vec::new();
        buckets.push(Bucket::new());
        Table { buckets, node_id }
    }

    /// The id of the local node.
    pub fn node_id(&self) -> (r: &BtDhtHash)
        ensures
            r == self.node_id,
    {
        &self.node_id
    }

    /// Iterator over the closest live nodes to the given id, at bucket
    /// granularity: every good node of the sorted buckets and every
    /// non-bad node of the assorted bucket, each exactly once.
    pub fn closest_nodes(&self, node_id: BtDhtHash, now: u64) -> (r: ClosestNodes)
        requires
            wf_table(*self),
        ensures
            cn_wf(r),
            r.pos == 0,
            r.now == now,
            r.id_g@ == self.node_id@,
            r.tgt_g@ == node_id@,
            forall|k: int|
                0 <= k < r.nodes@.len() ==> table_contains(*self, #[trigger] r.nodes@[k])
                    && cn_slot(self.buckets@, r.nodes@[k], now),
            forall|b: int, i: int|
                #[trigger] cn_yields(self.buckets@, b, i, now) ==> seq_has(
                    r.nodes@,
                    self.buckets@[b].nodes@[i],
                ),
            r.nodes@.len() > 0 && assigned(self.node_id@, r.nodes@[0]) == spec_equal_bits(
                self.node_id@,
                node_id@,
            ) ==> forall|k: int|
                0 < k < r.nodes@.len() && assigned(self.node_id@, #[trigger] r.nodes@[k])
                    != spec_equal_bits(self.node_id@, node_id@) ==> spec_equal_bits(
                    r.nodes@[k].id@,
                    node_id@,
                ) <= spec_equal_bits(r.nodes@[0].id@, node_id@),
    {
        ClosestNodes::new(&self.buckets, self.node_id, node_id, now)
    }

    /// Iterator over all bucket positions of the routing table.
    pub fn buckets(&self) -> (r: Buckets)
        ensures
            r.buckets@ == self.buckets@,
            r.index == 0,
    {
        Buckets::new(&self.buckets)
    }

    /// Find the record standing for the given peer, when a live one is in
    /// the table: exactly the pingable slot of the bucket the peer's
    /// prefix selects. Yields nothing exactly when no bucket holds a
    /// pingable record of that peer.
    pub fn find_node(&self, node: &Node, now: u64) -> (r: Option<Node>)
        requires
            wf_table(*self),
        ensures
            r matches Some(m) ==> node_eq(m, *node) && spec_status(m, now) != NodeStatus::Bad
                && table_contains(*self, m),
            r is None ==> forall|m: Node|
                table_contains(*self, m) && node_eq(m, *node) ==> spec_status(m, now)
                    == NodeStatus::Bad,
    {
        let bucket_index = bucket_placement(
            self.node_id.equal_bits(node.id()),
            self.buckets.len(),
        );
        let bucket = &self.buckets[bucket_index];
        let mut i: usize = 0;
        while i < 8
            invariant
                0 <= i <= 8,
                wf_table(*self),
                bucket == self.buckets@[bucket_index as int],
                bucket_index == spec_bucket_placement(
                    spec_equal_bits(self.node_id@, node.id@),
                    self.buckets@.len() as int,
                ),
                0 <= bucket_index < self.buckets@.len(),
                forall|j: int|
                    0 <= j < i ==> !(node_eq(#[trigger] bucket.nodes@[j], *node) && spec_status(
                        bucket.nodes@[j],
                        now,
                    ) != NodeStatus::Bad),
            decreases 8 - i,
        {
            if bucket.nodes[i].status(now) != NodeStatus::Bad && bucket.nodes[i].same_peer(node) {
                proof {
                    assert(table_contains(*self, bucket.nodes@[i as int])) by {
                        assert(self.buckets@[bucket_index as int].nodes@[i as int]
                            == bucket.nodes@[i as int]);
                    }
                }
                return Some(bucket.nodes[i]);
            }
            i += 1;
        }
        proof {
            assert forall|m: Node|
                table_contains(*self, m) && node_eq(m, *node) implies spec_status(m, now)
                == NodeStatus::Bad by {
                let (b, i): (int, int) = choose|b: int, i: int|
                    0 <= b < self.buckets@.len() && 0 <= i < 8 && #[trigger] self.buckets@[b].nodes@[i]
                        == m;
                if spec_status(m, now) != NodeStatus::Bad {
                    assert(occupied(m));
                    assert(node_placed(self.node_id@, self.buckets@.len() as int, b, m));
                    assert(b == bucket_index);
                }
            }
        }
        None
    }

    /// Record that the peer with this id and address sent us a request:
    /// exactly its occupied slot, when the table holds one, learns the
    /// time; every other slot keeps its record.
    pub fn remote_request(&mut self, id: &BtDhtHash, addr: KAddress, now: u64)
        requires
            wf_table(*old(self)),
        ensures
            wf_table(*final(self)),
            final(self).node_id == old(self).node_id,
            final(self).buckets@.len() == old(self).buckets@.len(),
            forall|b: int, i: int|
                0 <= b < old(self).buckets@.len() && 0 <= i < 8
                    ==> #[trigger] final(self).buckets@[b].nodes@[i] == marked_remote_request(
                    old(self).buckets@[b].nodes@[i],
                    id@,
                    addr,
                    now,
                ),
    {
        let ghost pre = *self;
        let b = bucket_placement(self.node_id.equal_bits(id), self.buckets.len());
        let bucket = &mut self.buckets[b];
        let mut i: usize = 0;
        while i < 8
            invariant
                0 <= i <= 8,
                wf_buckets(pre.buckets@, pre.node_id@),
                0 <= b < pre.buckets@.len(),
                forall|j: int|
                    0 <= j < i ==> #[trigger] bucket.nodes@[j] == marked_remote_request(
                        pre.buckets@[b as int].nodes@[j],
                        id@,
                        addr,
                        now,
                    ),
                forall|j: int|
                    i <= j < 8 ==> #[trigger] bucket.nodes@[j] == pre.buckets@[b as int].nodes@[j],
            decreases 8 - i,
        {
            let slot = bucket.nodes[i];
            if slot.last_response.is_some() && slot.id.same(id) && slot.addr == addr {
                let mut n = slot;
                n.remote_request(now);
                bucket.nodes[i] = n;
            }
            i += 1;
        }
        proof {
            assert forall|b2: int, i2: int|
                0 <= b2 < pre.buckets@.len() && 0 <= i2 < 8 && b2 != b implies #[trigger]
            self.buckets@[b2].nodes@[i2] == marked_remote_request(
                pre.buckets@[b2].nodes@[i2],
                id@,
                addr,
                now,
            ) by {
                let o = pre.buckets@[b2].nodes@[i2];
                if occupied(o) && o.id@ == id@ && o.addr == addr {
                    lemma_match_in_selected_bucket(pre, id@, b2, i2);
                }
            }
            assert(wf_table(*self)) by {
                assert forall|b2: int, i2: int|
                    0 <= b2 < self.buckets@.len() && 0 <= i2 < 8 implies node_placed(
                    self.node_id@,
                    self.buckets@.len() as int,
                    b2,
                    #[trigger] self.buckets@[b2].nodes@[i2],
                ) by {
                    assert(node_placed(pre.node_id@, pre.buckets@.len() as int, b2,
                        pre.buckets@[b2].nodes@[i2]));
                }
                assert forall|b2: int| 0 <= b2 < self.buckets@.len() implies wf_bucket(
                    #[trigger] self.buckets@[b2].nodes@,
                ) by {
                    assert(wf_bucket(pre.buckets@[b2].nodes@));
                }
            }
        }
    }

    /// Record that the peer with this id and address answered one of our
    /// requests: exactly its occupied slot, when the table holds one,
    /// becomes fresh again; every other slot keeps its record.
    pub fn remote_response(&mut self, id: &BtDhtHash, addr: KAddress, now: u64)
        requires
            wf_table(*old(self)),
        ensures
            wf_table(*final(self)),
            final(self).node_id == old(self).node_id,
            final(self).buckets@.len() == old(self).buckets@.len(),
            forall|b: int, i: int|
                0 <= b < old(self).buckets@.len() && 0 <= i < 8
                    ==> #[trigger] final(self).buckets@[b].nodes@[i] == marked_remote_response(
                    old(self).buckets@[b].nodes@[i],
                    id@,
                    addr,
                    now,
                ),
    {
        let ghost pre = *self;
        let b = bucket_placement(self.node_id.equal_bits(id), self.buckets.len());
        let bucket = &mut self.buckets[b];
        let mut i: usize = 0;
        while i < 8
            invariant
                0 <= i <= 8,
                wf_buckets(pre.buckets@, pre.node_id@),
                0 <= b < pre.buckets@.len(),
                forall|j: int|
                    0 <= j < i ==> #[trigger] bucket.nodes@[j] == marked_remote_response(
                        pre.buckets@[b as int].nodes@[j],
                        id@,
                        addr,
                        now,
                    ),
                forall|j: int|
                    i <= j < 8 ==> #[trigger] bucket.nodes@[j] == pre.buckets@[b as int].nodes@[j],
            decreases 8 - i,
        {
            let slot = bucket.nodes[i];
            if slot.last_response.is_some() && slot.id.same(id) && slot.addr == addr {
                let mut n = slot;
                n.remote_response(now);
                bucket.nodes[i] = n;
            }
            i += 1;
        }
        proof {
            assert forall|b2: int, i2: int|
                0 <= b2 < pre.buckets@.len() && 0 <= i2 < 8 && b2 != b implies #[trigger]
            self.buckets@[b2].nodes@[i2] == marked_remote_response(
                pre.buckets@[b2].nodes@[i2],
                id@,
                addr,
                now,
            ) by {
                let o = pre.buckets@[b2].nodes@[i2];
                if occupied(o) && o.id@ == id@ && o.addr == addr {
                    lemma_match_in_selected_bucket(pre, id@, b2, i2);
                }
            }
            assert(wf_table(*self)) by {
                assert forall|b2: int, i2: int|
                    0 <= b2 < self.buckets@.len() && 0 <= i2 < 8 implies node_placed(
                    self.node_id@,
                    self.buckets@.len() as int,
                    b2,
                    #[trigger] self.buckets@[b2].nodes@[i2],
                ) by {
                    assert(node_placed(pre.node_id@, pre.buckets@.len() as int, b2,
                        pre.buckets@[b2].nodes@[i2]));
                }
                assert forall|b2: int| 0 <= b2 < self.buckets@.len() implies wf_bucket(
                    #[trigger] self.buckets@[b2].nodes@,
                ) by {
                    assert(wf_bucket(pre.buckets@[b2].nodes@));
                }
            }
        }
    }

    /// Record that we sent a request to the peers behind this address:
    /// exactly the occupied, not currently good slots with that address
    /// use up one refresh request; every other slot keeps its record.
    pub fn local_request(&mut self, addr: KAddress, now: u64)
        requires
            wf_table(*old(self)),
        ensures
            wf_table(*final(self)),
            final(self).node_id == old(self).node_id,
            final(self).buckets@.len() == old(self).buckets@.len(),
            forall|b: int, i: int|
                0 <= b < old(self).buckets@.len() && 0 <= i < 8
                    ==> #[trigger] final(self).buckets@[b].nodes@[i] == marked_local_request(
                    old(self).buckets@[b].nodes@[i],
                    addr,
                    now,
                ),
    {
        let ghost pre = *self;
        let mut b: usize = 0;
        while b < self.buckets.len()
            invariant
                0 <= b <= self.buckets@.len(),
                wf_buckets(pre.buckets@, pre.node_id@),
                self.node_id == pre.node_id,
                self.buckets@.len() == pre.buckets@.len(),
                forall|b2: int| b <= b2 < pre.buckets@.len() ==> #[trigger] self.buckets@[b2]
                    == pre.buckets@[b2],
                forall|b2: int, j: int|
                    0 <= b2 < b && 0 <= j < 8 ==> #[trigger] self.buckets@[b2].nodes@[j]
                        == marked_local_request(pre.buckets@[b2].nodes@[j], addr, now),
            decreases self.buckets@.len() - b,
        {
            let bucket = &mut self.buckets[b];
            let ghost bpre = bucket.nodes@;
            let mut i: usize = 0;
            while i < 8
                invariant
                    0 <= i <= 8,
                    bpre.len() == 8,
                    bpre == pre.buckets@[b as int].nodes@,
                    b < pre.buckets@.len(),
                    forall|j: int| i <= j < 8 ==> #[trigger] bucket.nodes@[j] == bpre[j],
                    forall|j: int|
                        0 <= j < i ==> #[trigger] bucket.nodes@[j] == marked_local_request(
                            bpre[j],
                            addr,
                            now,
                        ),
                decreases 8 - i,
            {
                let slot = bucket.nodes[i];
                if slot.last_response.is_some() && slot.addr == addr && slot.status(now)
                    != NodeStatus::Good && slot.refresh_requests < usize::MAX {
                    let mut n = slot;
                    n.local_request(now);
                    bucket.nodes[i] = n;
                }
                i += 1;
            }
            b += 1;
        }
        proof {
            assert(wf_table(*self)) by {
                assert forall|b2: int, i2: int|
                    0 <= b2 < self.buckets@.len() && 0 <= i2 < 8 implies node_placed(
                    self.node_id@,
                    self.buckets@.len() as int,
                    b2,
                    #[trigger] self.buckets@[b2].nodes@[i2],
                ) by {
                    assert(node_placed(pre.node_id@, pre.buckets@.len() as int, b2,
                        pre.buckets@[b2].nodes@[i2]));
                }
                assert forall|b2: int| 0 <= b2 < self.buckets@.len() implies wf_bucket(
                    #[trigger] self.buckets@[b2].nodes@,
                ) by {
                    assert(wf_bucket(pre.buckets@[b2].nodes@));
                }
            }
        }
    }

    /// Add a node. A bad node and a node carrying our own id are dropped;
    /// otherwise the node is offered to the bucket its prefix selects,
    /// splitting the last bucket as long as that makes room. Every
    /// occupied slot afterwards holds a record that was already in the
    /// table or the new node; and a live newcomer ends up in the table
    /// unless an equal record at least as alive keeps its seat, or its
    /// bucket is full of slots ranking at least as high and may not be
    /// split.
    pub fn add_node(&mut self, node: Node, now: u64)
        requires
            wf_table(*old(self)),
        ensures
            wf_table(*final(self)),
            final(self).node_id == old(self).node_id,
            old(self).buckets@.len() <= final(self).buckets@.len(),
            spec_status(node, now) == NodeStatus::Bad ==> *final(self) == *old(self),
            spec_equal_bits(old(self).node_id@, node.id@) == 160 ==> *final(self) == *old(self),
            forall|m: Node|
                table_contains(*final(self), m) && occupied(m) ==> table_contains(*old(self), m)
                    || m == node,
            spec_status(node, now) != NodeStatus::Bad && spec_equal_bits(
                old(self).node_id@,
                node.id@,
            ) < 160 ==> table_contains(*final(self), node) || equal_seat_kept(
                *final(self),
                node,
                now,
            ) || bucket_rejects(*final(self), node, now),
        decreases 160 - old(self).buckets@.len(), 2int,
    {
        if node.status(now) == NodeStatus::Bad {
            return;
        }
        let num_same_bits = self.node_id.equal_bits(node.id());
        if num_same_bits != MAX_BUCKETS {
            self.bucket_node(node, num_same_bits, now);
        }
    }

    /// Place a non-bad node whose prefix length is `num_same_bits`,
    /// splitting the last bucket as often as that makes room.
    fn bucket_node(&mut self, node: Node, num_same_bits: usize, now: u64)
        requires
            wf_table(*old(self)),
            spec_status(node, now) != NodeStatus::Bad,
            num_same_bits == spec_equal_bits(old(self).node_id@, node.id@),
            num_same_bits < 160,
        ensures
            wf_table(*final(self)),
            final(self).node_id == old(self).node_id,
            old(self).buckets@.len() <= final(self).buckets@.len(),
            forall|m: Node|
                table_contains(*final(self), m) && occupied(m) ==> table_contains(*old(self), m)
                    || m == node,
            table_contains(*final(self), node) || equal_seat_kept(*final(self), node, now)
                || bucket_rejects(*final(self), node, now),
        decreases 160 - old(self).buckets@.len(), 1int,
    {
        let ghost pre = *self;
        let bucket_index = bucket_placement(num_same_bits, self.buckets.len());
        let placed = {
            let bucket = &mut self.buckets[bucket_index];
            bucket.add_node(node, now)
        };
        proof {
            lemma_add_node_members(pre.buckets@[bucket_index as int].nodes@, node, now);
            assert(wf_table(*self)) by {
                assert forall|b: int, i: int|
                    0 <= b < self.buckets@.len() && 0 <= i < 8 implies node_placed(
                    self.node_id@,
                    self.buckets@.len() as int,
                    b,
                    #[trigger] self.buckets@[b].nodes@[i],
                ) by {
                    if b == bucket_index && self.buckets@[b].nodes@[i] != pre.buckets@[b].nodes@[i] {
                        assert(self.buckets@[b].nodes@[i] == node);
                    } else {
                        assert(node_placed(pre.node_id@, pre.buckets@.len() as int, b,
                            pre.buckets@[b].nodes@[i]));
                    }
                }
                assert forall|b: int| 0 <= b < self.buckets@.len() implies wf_bucket(
                    #[trigger] self.buckets@[b].nodes@,
                ) by {
                    if b != bucket_index {
                        assert(wf_bucket(pre.buckets@[b].nodes@));
                    }
                }
            }
            assert forall|m: Node|
                table_contains(*self, m) && occupied(m) implies table_contains(pre, m) || m
                == node by {
                let (b, i): (int, int) = choose|b: int, i: int|
                    0 <= b < self.buckets@.len() && 0 <= i < 8 && #[trigger] self.buckets@[b].nodes@[i]
                        == m;
                if b == bucket_index {
                    if pre.buckets@[b].nodes@[i] == m {
                        assert(table_contains(pre, m));
                    }
                } else {
                    assert(pre.buckets@[b].nodes@[i] == m);
                    assert(table_contains(pre, m));
                }
            }
        }
        proof {
            let s0 = pre.buckets@[bucket_index as int].nodes@;
            let st = spec_status(node, now);
            lemma_find_eq_char(s0, node, 0);
            lemma_find_lower_char(s0, st, now, 0);
            let fe = find_eq_idx(s0, node, 0);
            if fe < 8 {
                if status_rank(st) >= status_rank(spec_status(s0[fe], now)) {
                    assert(self.buckets@[bucket_index as int].nodes@[fe] == node);
                    assert(table_contains(*self, node));
                } else {
                    assert(equal_seat_kept(*self, node, now)) by {
                        assert(occupied(s0[fe]));
                        assert(self.buckets@[bucket_index as int].nodes@[fe] == s0[fe]);
                    }
                }
            } else {
                let fl = find_lower_idx(s0, st, now, 0);
                if fl < 8 {
                    assert(self.buckets@[bucket_index as int].nodes@[fl] == node);
                    assert(table_contains(*self, node));
                }
            }
        }
        if !placed {
            let ghost mid = *self;
            if self.split_bucket(bucket_index, now) {
                self.bucket_node(node, num_same_bits, now);
            } else {
                proof {
                    let s0 = pre.buckets@[bucket_index as int].nodes@;
                    let st = spec_status(node, now);
                    lemma_find_eq_char(s0, node, 0);
                    lemma_find_lower_char(s0, st, now, 0);
                    assert(bucket_rejects(*self, node, now)) by {
                        assert(self.buckets@[bucket_index as int].nodes@ =~= s0);
                        assert(find_eq_idx(s0, node, 0) == 8);
                        assert(find_lower_idx(s0, st, now, 0) == 8);
                    }
                }
            }
        }
    }

    /// Split the last bucket: pop it, push two fresh buckets and re-add
    /// each of its nodes. Reports false when the bucket may not be split.
    fn split_bucket(&mut self, bucket_index: usize, now: u64) -> (r: bool)
        requires
            wf_table(*old(self)),
            bucket_index < old(self).buckets@.len(),
        ensures
            wf_table(*final(self)),
            final(self).node_id == old(self).node_id,
            r ==> old(self).buckets@.len() + 1 <= final(self).buckets@.len(),
            !r ==> *final(self) == *old(self) && !(bucket_index == old(self).buckets@.len() - 1
                && bucket_index != 159),
            forall|m: Node|
                table_contains(*final(self), m) && occupied(m) ==> table_contains(*old(self), m),
        decreases 160 - old(self).buckets@.len(), 0int,
    {
        if !can_split_bucket(self.buckets.len(), bucket_index) {
            return false;
        }
        let ghost pre = *self;
        let split = match self.buckets.pop() {
            Some(bucket) => bucket,
            None => {
                proof {
                    assert(false);
                }
                return false;
            },
        };
        self.buckets.push(Bucket::new());
        self.buckets.push(Bucket::new());
        proof {
            assert(wf_table(*self)) by {
                let nlen = self.buckets@.len() as int;
                assert forall|b: int, i: int|
                    0 <= b < nlen && 0 <= i < 8 implies node_placed(
                    self.node_id@,
                    nlen,
                    b,
                    #[trigger] self.buckets@[b].nodes@[i],
                ) by {
                    if b < pre.buckets@.len() - 1 {
                        assert(self.buckets@[b] == pre.buckets@[b]);
                        assert(node_placed(pre.node_id@, pre.buckets@.len() as int, b,
                            pre.buckets@[b].nodes@[i]));
                    } else {
                        assert(!occupied(self.buckets@[b].nodes@[i]));
                    }
                }
                assert forall|b: int| 0 <= b < nlen implies wf_bucket(
                    #[trigger] self.buckets@[b].nodes@,
                ) by {
                    if b < pre.buckets@.len() - 1 {
                        assert(self.buckets@[b] == pre.buckets@[b]);
                        assert(wf_bucket(pre.buckets@[b].nodes@));
                    }
                }
            }
        }
        proof {
            assert forall|m: Node|
                table_contains(*self, m) && occupied(m) implies table_contains(pre, m) by {
                let (b, i): (int, int) = choose|b: int, i: int|
                    0 <= b < self.buckets@.len() && 0 <= i < 8 && #[trigger] self.buckets@[b].nodes@[i]
                        == m;
                assert(b < pre.buckets@.len() - 1);
                assert(pre.buckets@[b].nodes@[i] == m);
            }
        }
        let mut i: usize = 0;
        while i < 8
            invariant
                0 <= i <= 8,
                pre == *old(self),
                wf_table(pre),
                wf_table(*self),
                self.node_id == pre.node_id,
                pre.buckets@.len() + 1 <= self.buckets@.len() <= 160,
                split.nodes@.len() == 8,
                forall|k: int| 0 <= k < 8 ==> pre.buckets@[pre.buckets@.len() - 1].nodes@[k]
                    == #[trigger] split.nodes@[k],
                forall|m: Node|
                    table_contains(*self, m) && occupied(m) ==> table_contains(pre, m),
            decreases 8 - i,
        {
            let ghost mid = *self;
            self.add_node(split.nodes[i], now);
            proof {
                assert forall|m: Node|
                    table_contains(*self, m) && occupied(m) implies table_contains(pre, m) by {
                    if !table_contains(mid, m) {
                        assert(m == split.nodes@[i as int]);
                        assert(pre.buckets@[pre.buckets@.len() - 1].nodes@[i as int] == m);
                        assert(table_contains(pre, m));
                    }
                }
            }
            i += 1;
        }
        true
    }
}

} // verus!
