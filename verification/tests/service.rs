//! Transactions, and the event-loop state machine end to end.

use kdht::bt_dht::BtDhtArg;
use kdht::bt_dht::BtDhtHash;
use kdht::bt_dht::BtDhtRes;
use kdht::krpc::KAddress;
use kdht::krpc::KError;
use kdht::krpc::KMessage;
use kdht::kservice::KAction;
use kdht::kservice::KCommand;
use kdht::kservice::KEvent;
use kdht::kservice::KReply;
use kdht::kservice::KService;
use kdht::kservice::KTransError;
use kdht::kservice::find_node_local;
use kdht::kservice::handle_query;
use kdht::kservice::pong_id;
use kdht::ktrans::KTrans;
use kdht::node::Node;
use kdht::node::NodeStatus;
use kdht::table::Table;

const NOW: u64 = 50_000;

fn addr(port: u16) -> KAddress {
    KAddress { ip: 0x0a000002, port }
}

#[test]
fn test_trans_end_after_start() {
    let mut trans: KTrans<u32> = KTrans::new();
    let a = addr(7000);
    let tid = trans.start(a, 17);
    assert_eq!(tid.len(), 2);
    assert_eq!(trans.active(), 1);
    assert_eq!(trans.end(a, &tid), Some(17));
    assert_eq!(trans.active(), 0);
    assert_eq!(trans.end(a, &tid), None);
}

#[test]
fn test_trans_distinct_tids() {
    let mut trans: KTrans<u32> = KTrans::new();
    let a = addr(7001);
    let mut seen: Vec<Vec<u8>> = Vec::new();
    for i in 0..100u32 {
        let tid = trans.start(a, i);
        assert!(!seen.contains(&tid), "a transaction id repeated");
        seen.push(tid);
    }
}

#[test]
fn test_trans_wrong_address_or_tid() {
    let mut trans: KTrans<u32> = KTrans::new();
    let a = addr(7002);
    let tid = trans.start(a, 5);
    assert_eq!(trans.end(addr(7003), &tid), None);
    assert_eq!(trans.end(a, &vec![1, 2, 3]), None);
    assert_eq!(trans.end(a, &tid), Some(5));
}

fn self_id() -> BtDhtHash {
    BtDhtHash::from([0x21u8; 20])
}

fn take_sent(actions: &[KAction]) -> (KAddress, KMessage<kdht::bt_dht::BtDhtQuery, BtDhtArg, BtDhtRes>) {
    match &actions[0] {
        KAction::Send { to, msg } => (*to, msg.clone()),
        other => panic!("expected a send, got {:?}", other),
    }
}

#[test]
fn test_ping_round_trip_ok() {
    // Boot, issue a ping; the simulated peer answers with a pong.
    let mut svc = KService::new(self_id());
    let peer = addr(8000);
    let actions = svc.step(
        KEvent::Api {
            cmd: KCommand::Query {
                addr: peer,
                arg: BtDhtArg::Ping { id: self_id() },
                call: 1,
                timeout: 5,
            },
        },
        NOW,
    );
    assert_eq!(actions.len(), 1);
    let (to, sent) = take_sent(&actions);
    assert_eq!(to, peer);
    let tid = match sent {
        KMessage::Query { tid, .. } => tid,
        other => panic!("expected a query, got {:?}", other),
    };

    let remote_id = BtDhtHash::from([0x9eu8; 20]);
    let reply = KMessage::Response {
        ip: None,
        tid,
        res: BtDhtRes::Pong { id: remote_id },
    };
    let actions = svc.step(KEvent::Net { from: peer, msg: reply }, NOW + 1);
    assert_eq!(actions.len(), 1);
    match &actions[0] {
        KAction::Complete { call, reply } => {
            assert_eq!(*call, 1);
            match reply {
                KReply::Res(res) => assert_eq!(pong_id(res), Ok(remote_id)),
                other => panic!("expected a response, got {:?}", other),
            }
        },
        other => panic!("expected a completion, got {:?}", other),
    }
    assert_eq!(svc.trans.active(), 0);
}

#[test]
fn test_ping_remote_error() {
    // The peer answers with a wire error instead of a pong.
    let mut svc = KService::new(self_id());
    let peer = addr(8001);
    let actions = svc.step(
        KEvent::Api {
            cmd: KCommand::Query {
                addr: peer,
                arg: BtDhtArg::Ping { id: self_id() },
                call: 2,
                timeout: 5,
            },
        },
        NOW,
    );
    let (_, sent) = take_sent(&actions);
    let tid = match sent {
        KMessage::Query { tid, .. } => tid,
        other => panic!("expected a query, got {:?}", other),
    };

    let reply = KMessage::Error {
        ip: None,
        tid,
        code: KError::Protocol,
        message: b"bad query".to_vec(),
    };
    let actions = svc.step(KEvent::Net { from: peer, msg: reply }, NOW + 1);
    assert_eq!(actions.len(), 1);
    match &actions[0] {
        KAction::Complete { call, reply } => {
            assert_eq!(*call, 2);
            assert_eq!(
                *reply,
                KReply::Error(KTransError::KError(KError::Protocol, b"bad query".to_vec()))
            );
        },
        other => panic!("expected a completion, got {:?}", other),
    }
}

#[test]
fn test_ping_timeout_empties_table() {
    // The peer never answers; the tick past the deadline completes the
    // call with a timeout and reclaims the transaction.
    let mut svc = KService::new(self_id());
    let peer = addr(8002);
    let _ = svc.step(
        KEvent::Api {
            cmd: KCommand::Query {
                addr: peer,
                arg: BtDhtArg::Ping { id: self_id() },
                call: 3,
                timeout: 5,
            },
        },
        NOW,
    );
    assert_eq!(svc.trans.active(), 1);

    let actions = svc.step(KEvent::Tick, NOW + 4);
    assert!(actions.is_empty());
    assert_eq!(svc.trans.active(), 1);

    let actions = svc.step(KEvent::Tick, NOW + 6);
    assert_eq!(actions.len(), 1);
    match &actions[0] {
        KAction::Complete { call, reply } => {
            assert_eq!(*call, 3);
            assert_eq!(*reply, KReply::Error(KTransError::Timeout));
        },
        other => panic!("expected a completion, got {:?}", other),
    }
    assert_eq!(svc.trans.active(), 0);
}

#[test]
fn test_inbound_ping_answered() {
    // An incoming ping gets a pong carrying our id, with the same tid,
    // toward the sender.
    let mut svc = KService::new(self_id());
    let peer = addr(8003);
    let remote_id = BtDhtHash::from([0x66u8; 20]);
    let actions = svc.step(
        KEvent::Net {
            from: peer,
            msg: KMessage::Query {
                tid: b"qq".to_vec(),
                query: kdht::bt_dht::BtDhtQuery::Ping,
                arg: BtDhtArg::Ping { id: remote_id },
            },
        },
        NOW,
    );
    assert_eq!(actions.len(), 1);
    let (to, sent) = take_sent(&actions);
    assert_eq!(to, peer);
    assert_eq!(
        sent,
        KMessage::Response {
            ip: None,
            tid: b"qq".to_vec(),
            res: BtDhtRes::Pong { id: self_id() },
        }
    );
}

#[test]
fn test_inbound_unknown_method() {
    let target = BtDhtHash::from([0x01u8; 20]);
    let handled = handle_query(
        &BtDhtArg::FindNode { id: BtDhtHash::from([0x02u8; 20]), target },
        &self_id(),
    );
    assert_eq!(
        handled,
        kdht::kservice::KHandled::Error(KError::Method, b"Method unimplemented".to_vec())
    );
}

#[test]
fn test_finalize_then_io_error() {
    // Finalize stops the loop; later API calls fail with an IO error.
    let mut svc = KService::new(self_id());
    let peer = addr(8004);
    let _ = svc.step(
        KEvent::Api {
            cmd: KCommand::Query {
                addr: peer,
                arg: BtDhtArg::Ping { id: self_id() },
                call: 4,
                timeout: 5,
            },
        },
        NOW,
    );

    let actions = svc.step(KEvent::Api { cmd: KCommand::Finalize }, NOW + 1);
    assert_eq!(actions.len(), 2);
    assert_eq!(
        actions[0],
        KAction::Complete {
            call: 4,
            reply: KReply::Error(KTransError::IOError(b"shutting down".to_vec())),
        }
    );
    assert_eq!(actions[1], KAction::Stop);
    assert_eq!(svc.trans.active(), 0);

    let actions = svc.step(
        KEvent::Api {
            cmd: KCommand::Query {
                addr: peer,
                arg: BtDhtArg::Ping { id: self_id() },
                call: 5,
                timeout: 5,
            },
        },
        NOW + 2,
    );
    assert_eq!(actions.len(), 1);
    assert_eq!(
        actions[0],
        KAction::Complete {
            call: 5,
            reply: KReply::Error(KTransError::IOError(b"shutting down".to_vec())),
        }
    );
}

#[test]
fn test_pong_id_shape() {
    let id = BtDhtHash::from([0x13u8; 20]);
    assert_eq!(pong_id(&BtDhtRes::Pong { id }), Ok(id));
    let wrong = BtDhtRes::FindNode { id, nodes: vec![] };
    assert_eq!(
        pong_id(&wrong),
        Err(KTransError::KError(KError::Generic, b"Invalid response".to_vec()))
    );
}

#[test]
fn test_find_node_local_hit_and_miss() {
    let mut table = Table::new(self_id());
    let target = BtDhtHash::from([0xc3u8; 20]);
    let peer = Node::new(target, addr(9000), NodeStatus::Good, NOW);
    table.add_node(peer, NOW);
    assert_eq!(find_node_local(&table, &target, NOW), Ok(addr(9000)));

    let absent = BtDhtHash::from([0xc4u8; 20]);
    assert_eq!(find_node_local(&table, &absent, NOW), Err(KTransError::Timeout));
}

#[test]
fn test_trans_tid_wraps() {
    let mut trans: KTrans<u32> = KTrans::new();
    trans.last_tid = 0xffff;
    let a = addr(7004);
    let tid = trans.start(a, 9);
    assert_eq!(tid, vec![0, 0]);
    assert_eq!(trans.end(a, &tid), Some(9));
}

#[test]
fn test_marks_touch_known_peers() {
    // A known peer's slot learns about inbound requests and responses;
    // the loop marks exactly that slot.
    let mut svc = KService::new(self_id());
    let peer_addr = addr(8005);
    let peer_id = BtDhtHash::from([0x33u8; 20]);
    svc.table
        .add_node(Node::new(peer_id, peer_addr, NodeStatus::Good, NOW), NOW);

    // The peer sends us a ping: its slot records the request time.
    let _ = svc.step(
        KEvent::Net {
            from: peer_addr,
            msg: KMessage::Query {
                tid: b"mm".to_vec(),
                query: kdht::bt_dht::BtDhtQuery::Ping,
                arg: BtDhtArg::Ping { id: peer_id },
            },
        },
        NOW + 10,
    );
    let slot = svc
        .table
        .find_node(&Node::new(peer_id, peer_addr, NodeStatus::Good, NOW), NOW + 10)
        .expect("the peer should be in the table");
    assert_eq!(slot.last_request, Some(NOW + 10));

    // We ping the peer and it answers: its slot records the response time.
    let actions = svc.step(
        KEvent::Api {
            cmd: KCommand::Query {
                addr: peer_addr,
                arg: BtDhtArg::Ping { id: self_id() },
                call: 9,
                timeout: 5,
            },
        },
        NOW + 20,
    );
    let (_, sent) = take_sent(&actions);
    let tid = match sent {
        KMessage::Query { tid, .. } => tid,
        other => panic!("expected a query, got {:?}", other),
    };
    let _ = svc.step(
        KEvent::Net {
            from: peer_addr,
            msg: KMessage::Response {
                ip: None,
                tid,
                res: BtDhtRes::Pong { id: peer_id },
            },
        },
        NOW + 21,
    );
    let slot = svc
        .table
        .find_node(&Node::new(peer_id, peer_addr, NodeStatus::Good, NOW), NOW + 21)
        .expect("the peer should still be in the table");
    assert_eq!(slot.last_response, Some(NOW + 21));
    assert_eq!(slot.refresh_requests, 0);
}
