//! Buckets, the routing table and the closest-nodes walk.

use kdht::NodeId;
use kdht::bt_dht::BtDhtHash;
use kdht::bucket::Bucket;
use kdht::krpc::KAddress;
use kdht::node::Node;
use kdht::node::NodeStatus;
use kdht::table::Table;

const NOW: u64 = 100_000;

fn addr(port: u16) -> KAddress {
    KAddress { ip: 0x0a000001, port }
}

fn good(id: [u8; 20], port: u16) -> Node {
    Node::new(BtDhtHash::from(id), addr(port), NodeStatus::Good, NOW)
}

fn nth_id(n: u8) -> [u8; 20] {
    let mut id = [0u8; 20];
    id[19] = n;
    id
}

#[test]
fn test_bucket_full_after_eight() {
    let mut bucket = Bucket::new();
    for n in 1..=8u8 {
        assert!(bucket.add_node(good(nth_id(n), 1000 + n as u16), NOW));
    }
    assert!(!bucket.add_node(good(nth_id(9), 1009), NOW));
}

#[test]
fn test_bucket_equal_node_status() {
    let mut bucket = Bucket::new();
    let id = nth_id(1);
    let questionable = Node::new(BtDhtHash::from(id), addr(1001), NodeStatus::Questionable, NOW);
    assert!(bucket.add_node(questionable, NOW));

    // A higher-status record of the same peer replaces the slot.
    assert!(bucket.add_node(good(id, 1001), NOW));
    let found: Vec<Node> = bucket
        .iter()
        .iter()
        .filter(|n| n.id == BtDhtHash::from(id))
        .cloned()
        .collect();
    assert_eq!(found.len(), 1);
    assert_eq!(found[0].status(NOW), NodeStatus::Good);

    // A lower-status record of the same peer does not.
    let again = Node::new(BtDhtHash::from(id), addr(1001), NodeStatus::Questionable, NOW);
    assert!(bucket.add_node(again, NOW));
    let found: Vec<Node> = bucket
        .iter()
        .iter()
        .filter(|n| n.id == BtDhtHash::from(id))
        .cloned()
        .collect();
    assert_eq!(found.len(), 1);
    assert_eq!(found[0].status(NOW), NodeStatus::Good);
}

#[test]
fn test_table_ignores_own_id() {
    let self_id = BtDhtHash::from([0x77u8; 20]);
    let mut table = Table::new(self_id);
    table.add_node(Node::new(self_id, addr(2000), NodeStatus::Good, NOW), NOW);
    for bucket in table.buckets.iter() {
        for slot in bucket.nodes.iter() {
            assert!(slot.last_response.is_none());
        }
    }
}

#[test]
fn test_table_sorted_invariant_after_insertions() {
    let self_id = BtDhtHash::from([0x00u8; 20]);
    let mut table = Table::new(self_id);
    for _ in 0..200 {
        let node = Node::new(BtDhtHash::new(), addr(3000), NodeStatus::Good, NOW);
        table.add_node(node, NOW);
    }
    let len = table.buckets.len();
    assert!(1 <= len && len <= 160);
    for (b, bucket) in table.buckets.iter().enumerate() {
        for slot in bucket.nodes.iter() {
            if slot.last_response.is_some() {
                let d = self_id.equal_bits(&slot.id);
                if b + 1 < len {
                    assert_eq!(d, b);
                } else {
                    assert!(d >= b && d < 160);
                }
            }
        }
    }
}

#[test]
fn test_closest_nodes_unique_and_bounded() {
    let self_id = BtDhtHash::from([0x00u8; 20]);
    let mut table = Table::new(self_id);
    for _ in 0..200 {
        let node = Node::new(BtDhtHash::new(), addr(4000), NodeStatus::Good, NOW);
        table.add_node(node, NOW);
    }
    let target = BtDhtHash::from([0x5au8; 20]);
    let mut cn = table.closest_nodes(target, NOW);
    let mut yielded: Vec<Node> = Vec::new();
    while let Some(n) = cn.next() {
        yielded.push(n);
    }
    assert!(yielded.len() <= 160 * 8);
    for i in 0..yielded.len() {
        for j in 0..i {
            assert!(
                yielded[i].id != yielded[j].id || yielded[i].addr != yielded[j].addr,
                "a node was yielded twice"
            );
        }
    }
    // The first yield, when it shares the target's bucket, is at least as
    // close to the target as any yield from another bucket.
    if !yielded.is_empty() {
        let s = self_id.equal_bits(&target);
        let first = &yielded[0];
        if self_id.equal_bits(&first.id) == s {
            for n in &yielded {
                if self_id.equal_bits(&n.id) != s {
                    assert!(n.id.equal_bits(&target) <= first.id.equal_bits(&target));
                }
            }
        }
    }
}

#[test]
fn test_find_node_present_and_absent() {
    let self_id = BtDhtHash::from([0x00u8; 20]);
    let mut table = Table::new(self_id);
    let peer = good(nth_id(5), 1005);
    table.add_node(peer, NOW);
    let found = table.find_node(&peer, NOW).expect("peer should be found");
    assert_eq!(found.id, peer.id);
    assert_eq!(found.addr, peer.addr);

    let stranger = good(nth_id(6), 1006);
    assert!(table.find_node(&stranger, NOW).is_none());
}

#[test]
fn test_node_status_windows() {
    let node = Node::new(BtDhtHash::from(nth_id(1)), addr(1), NodeStatus::Good, NOW);
    assert_eq!(node.status(NOW), NodeStatus::Good);
    assert_eq!(node.status(NOW + 899), NodeStatus::Good);
    assert_eq!(node.status(NOW + 900), NodeStatus::Questionable);

    let mut stale = node;
    stale.local_request(NOW + 900);
    assert_eq!(stale.status(NOW + 900), NodeStatus::Questionable);
    stale.local_request(NOW + 900);
    assert_eq!(stale.status(NOW + 900), NodeStatus::Bad);

    let mut refreshed = stale;
    refreshed.remote_response(NOW + 901);
    assert_eq!(refreshed.status(NOW + 901), NodeStatus::Good);

    let mut requested = node;
    requested.remote_request(NOW + 1000);
    assert_eq!(requested.status(NOW + 1000), NodeStatus::Good);
}

#[test]
fn test_buckets_iterator_positions() {
    let self_id = BtDhtHash::from([0x00u8; 20]);
    let table = Table::new(self_id);
    let mut it = table.buckets();
    let mut sorted: u32 = 0;
    let mut empty: u32 = 0;
    let mut assorted: u32 = 0;
    while let Some(c) = it.next() {
        match c {
            kdht::table::BucketContents::Sorted(_) => sorted += 1,
            kdht::table::BucketContents::Empty => empty += 1,
            kdht::table::BucketContents::Assorted(_) => assorted += 1,
        }
    }
    assert_eq!((sorted, empty, assorted), (0, 160, 1));
}

#[test]
fn test_bucket_iterator_limit() {
    let self_id = BtDhtHash::from([0x00u8; 20]);
    let mut table = Table::new(self_id);
    // With a single bucket nothing is sorted yet.
    assert!(kdht::table::bucket_iterator(&table.buckets, 0, NOW).is_none());
    for n in 1..=16u8 {
        table.add_node(good(nth_id(n), 5000 + n as u16), NOW);
    }
    // Splitting created sorted buckets; their good nodes are listed.
    assert!(table.buckets.len() > 1);
    let listed = kdht::table::bucket_iterator(&table.buckets, 0, NOW);
    assert!(listed.is_some());
}
