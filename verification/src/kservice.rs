//! The service core: the event loop's decisions as a pure transition
//! function from state and event to the next state and the actions to
//! perform. The host around it reads datagrams, takes API commands and a
//! periodic timer, feeds each as an event, and performs the actions.

use vstd::prelude::*;
use crate::bt_dht::BtDhtArg;
use crate::bt_dht::BtDhtHash;
use crate::bt_dht::BtDhtMessage;
use crate::bt_dht::BtDhtQuery;
use crate::bt_dht::BtDhtRes;
use crate::kcodec::append_slice;
use crate::krpc::KAddress;
use crate::krpc::KError;
use crate::krpc::KMessage;
use crate::ktrans::KTrans;
use crate::ktrans::be16;
use crate::ktrans::be16_val;
use crate::ktrans::distinct_keys;
use crate::ktrans::lookup;
use crate::ktrans::remove_key;
use crate::ktrans::trans_key;
use crate::node::Node;
use crate::node::NodeStatus;
use crate::node::occupied;
use crate::node::spec_status;
use crate::table::Table;
use crate::table::table_contains;
use crate::table::wf_table;

verus! {

/// Transport-level failure surfaced to an API caller.
#[derive(Debug, Clone, PartialEq, Eq)]
pub enum KTransError {
    /// The remote answered with a wire error: its code and text.
    KError(KError, Vec<u8>),
    /// A local failure, with its cause.
    IOError(Vec<u8>),
    /// The remote never answered within the deadline.
    Timeout,
}

/// What a completed API call receives.
#[derive(Debug, Clone, PartialEq, Eq)]
pub enum KReply {
    Res(BtDhtRes),
    Error(KTransError),
}

/// What the handler answers an inbound query with.
#[derive(Debug, Clone, PartialEq, Eq)]
pub enum KHandled {
    Res(BtDhtRes),
    Error(KError, Vec<u8>),
}

/// A command an API caller hands to the loop.
#[derive(Debug, Clone, PartialEq, Eq)]
pub enum KCommand {
    /// Send `arg` to `addr` and complete call `call` with the outcome,
    /// no later than `timeout` seconds from now.
    Query { addr: KAddress, arg: BtDhtArg, call: u64, timeout: u64 },
    /// Shut the loop down.
    Finalize,
}

/// One event of the merged stream the loop runs over.
#[derive(Debug, Clone, PartialEq, Eq)]
pub enum KEvent {
    /// A datagram arrived and decoded to a message.
    Net { from: KAddress, msg: BtDhtMessage },
    /// An API caller issued a command.
    Api { cmd: KCommand },
    /// The periodic timer fired.
    Tick,
}

/// One action the host must perform after a step.
#[derive(Debug, Clone, PartialEq, Eq)]
pub enum KAction {
    /// Encode and send a message.
    Send { to: KAddress, msg: BtDhtMessage },
    /// Complete the API call `call` with `reply`.
    Complete { call: u64, reply: KReply },
    /// Terminate the loop.
    Stop,
}

/// The text of the reply to an unknown method.
pub open spec fn method_unimplemented() -> Seq<u8> {
    seq![77u8, 101, 116, 104, 111, 100, 32, 117, 110, 105, 109, 112, 108, 101, 109, 101, 110, 116, 101, 100]
}

/// The cause handed to calls cut short by shutdown.
pub open spec fn shutting_down() -> Seq<u8> {
    seq![115u8, 104, 117, 116, 116, 105, 110, 103, 32, 100, 111, 119, 110]
}

/// The text of the error for a response of an unexpected shape.
pub open spec fn invalid_response() -> Seq<u8> {
    seq![73u8, 110, 118, 97, 108, 105, 100, 32, 114, 101, 115, 112, 111, 110, 115, 101]
}

/// Answer an inbound query from the local state alone: a ping gets a
/// pong carrying our id; every other method is unimplemented.
pub fn handle_query(arg: &BtDhtArg, node_id: &BtDhtHash) -> (r: KHandled)
    ensures
        arg matches BtDhtArg::Ping { .. } ==> r == KHandled::Res(
            BtDhtRes::Pong { id: *node_id },
        ),
        !(arg matches BtDhtArg::Ping { .. }) ==> (r matches KHandled::Error(c, m) && c
            == KError::Method && m@ == method_unimplemented()),
{
    match arg {
        BtDhtArg::Ping { .. } => KHandled::Res(BtDhtRes::Pong { id: *node_id }),
        _ => {
            let mut m: Vec<u8> = Vec::new();
            append_slice(
                &mut m,
                &[77, 101, 116, 104, 111, 100, 32, 117, 110, 105, 109, 112, 108, 101, 109, 101, 110, 116, 101, 100],
            );
            proof {
                assert(m@ =~= method_unimplemented());
            }
            KHandled::Error(KError::Method, m)
        },
    }
}

/// The sender id carried in a response payload.
pub open spec fn spec_res_id(r: BtDhtRes) -> BtDhtHash {
    match r {
        BtDhtRes::GetPeersNodes { id, .. } => id,
        BtDhtRes::GetPeersValues { id, .. } => id,
        BtDhtRes::FindNode { id, .. } => id,
        BtDhtRes::Pong { id } => id,
    }
}

fn res_id(r: &BtDhtRes) -> (h: BtDhtHash)
    ensures
        h == spec_res_id(*r),
{
    match r {
        BtDhtRes::GetPeersNodes { id, .. } => *id,
        BtDhtRes::GetPeersValues { id, .. } => *id,
        BtDhtRes::FindNode { id, .. } => *id,
        BtDhtRes::Pong { id } => *id,
    }
}

/// The method name a query argument belongs to.
pub open spec fn spec_query_of(a: BtDhtArg) -> BtDhtQuery {
    match a {
        BtDhtArg::AnnouncePeer { .. } => BtDhtQuery::AnnouncePeer,
        BtDhtArg::GetPeers { .. } => BtDhtQuery::GetPeers,
        BtDhtArg::FindNode { .. } => BtDhtQuery::FindNode,
        BtDhtArg::Ping { .. } => BtDhtQuery::Ping,
    }
}

fn query_of(a: &BtDhtArg) -> (q: BtDhtQuery)
    ensures
        q == spec_query_of(*a),
{
    match a {
        BtDhtArg::AnnouncePeer { .. } => BtDhtQuery::AnnouncePeer,
        BtDhtArg::GetPeers { .. } => BtDhtQuery::GetPeers,
        BtDhtArg::FindNode { .. } => BtDhtQuery::FindNode,
        BtDhtArg::Ping { .. } => BtDhtQuery::Ping,
    }
}

/// A pending outbound query: the API call it belongs to and its deadline.
#[derive(Debug, Copy, Clone, PartialEq, Eq, Structural)]
pub struct KPending {
    pub call: u64,
    pub deadline: u64,
}

/// The reply a query step sends back: a response or error dictionary
/// carrying the same transaction id.
pub open spec fn spec_reply(msg: BtDhtMessage, tid: Seq<u8>, arg: BtDhtArg, id: BtDhtHash) -> bool {
    if arg matches BtDhtArg::Ping { .. } {
        msg matches KMessage::Response { ip, tid: t, res } && ip is None && t@ == tid && res
            == (BtDhtRes::Pong { id })
    } else {
        msg matches KMessage::Error { ip, tid: t, code, message } && ip is None && t@ == tid && code
            == KError::Method && message@ == method_unimplemented()
    }
}

/// The sender id carried in a query argument.
pub open spec fn spec_arg_id(a: BtDhtArg) -> BtDhtHash {
    match a {
        BtDhtArg::AnnouncePeer { id, .. } => id,
        BtDhtArg::GetPeers { id, .. } => id,
        BtDhtArg::FindNode { id, .. } => id,
        BtDhtArg::Ping { id } => id,
    }
}

fn arg_id(a: &BtDhtArg) -> (h: BtDhtHash)
    ensures
        h == spec_arg_id(*a),
{
    match a {
        BtDhtArg::AnnouncePeer { id, .. } => *id,
        BtDhtArg::GetPeers { id, .. } => *id,
        BtDhtArg::FindNode { id, .. } => *id,
        BtDhtArg::Ping { id } => *id,
    }
}

/// The deadline an outbound query is armed with: `timeout` seconds from
/// `now`, capped at the clock's end.
pub open spec fn spec_deadline(now: u64, timeout: u64) -> u64 {
    if now + timeout > u64::MAX {
        u64::MAX
    } else {
        (now + timeout) as u64
    }
}

/// The table after a remote_request mark for the peer `(id, addr)`:
/// exactly the peer's occupied slot learns the request time, every other
/// slot keeps its record.
pub open spec fn marked_request(o: Table, f: Table, id: Seq<u8>, addr: KAddress, now: u64) -> bool {
    &&& f.node_id == o.node_id
    &&& f.buckets@.len() == o.buckets@.len()
    &&& forall|b: int, i: int|
        0 <= b < o.buckets@.len() && 0 <= i < 8 ==> #[trigger] f.buckets@[b].nodes@[i]
            == crate::table::marked_remote_request(o.buckets@[b].nodes@[i], id, addr, now)
}

/// The table after a remote_response mark for the peer `(id, addr)`:
/// exactly the peer's occupied slot becomes fresh again, every other
/// slot keeps its record.
pub open spec fn marked_response(o: Table, f: Table, id: Seq<u8>, addr: KAddress, now: u64) -> bool {
    &&& f.node_id == o.node_id
    &&& f.buckets@.len() == o.buckets@.len()
    &&& forall|b: int, i: int|
        0 <= b < o.buckets@.len() && 0 <= i < 8 ==> #[trigger] f.buckets@[b].nodes@[i]
            == crate::table::marked_remote_response(o.buckets@[b].nodes@[i], id, addr, now)
}

/// The table after a local_request mark toward `addr`: exactly the
/// occupied, not currently good slots with that address use a refresh
/// request, every other slot keeps its record.
pub open spec fn marked_local(o: Table, f: Table, addr: KAddress, now: u64) -> bool {
    &&& f.node_id == o.node_id
    &&& f.buckets@.len() == o.buckets@.len()
    &&& forall|b: int, i: int|
        0 <= b < o.buckets@.len() && 0 <= i < 8 ==> #[trigger] f.buckets@[b].nodes@[i]
            == crate::table::marked_local_request(o.buckets@[b].nodes@[i], addr, now)
}

/// Interpret the response to a ping: its sender id when the shape is a
/// pong, and a generic error otherwise.
pub fn pong_id(res: &BtDhtRes) -> (r: Result<BtDhtHash, KTransError>)
    ensures
        res matches BtDhtRes::Pong { id } ==> r matches Ok(h) && h == id,
        !(res matches BtDhtRes::Pong { .. }) ==> (r matches Err(e) && (e matches
            KTransError::KError(c, m) && c == KError::Generic && m@ == invalid_response())),
{
    match res {
        BtDhtRes::Pong { id } => Ok(*id),
        _ => {
            let mut m: Vec<u8> = Vec::new();
            append_slice(
                &mut m,
                &[73, 110, 118, 97, 108, 105, 100, 32, 114, 101, 115, 112, 111, 110, 115, 101],
            );
            proof {
                assert(m@ =~= invalid_response());
            }
            Err(KTransError::KError(KError::Generic, m))
        },
    }
}

/// Look the target up among the closest nodes: the address of a live
/// record carrying exactly the target id, else a timeout, as the local
/// answer of find_node. A timeout means no slot the walk hands out
/// carries the target id.
pub fn find_node_local(table: &Table, target: &BtDhtHash, now: u64) -> (r: Result<
    KAddress,
    KTransError,
>)
    requires
        wf_table(*table),
    ensures
        r matches Ok(a) ==> exists|m: Node|
            #[trigger] table_contains(*table, m) && m.id@ == target@ && m.addr == a && spec_status(
                m,
                now,
            ) != NodeStatus::Bad,
        r matches Err(e) ==> e == KTransError::Timeout && forall|b: int, i: int|
            #[trigger] crate::table::cn_yields(table.buckets@, b, i, now)
                ==> table.buckets@[b].nodes@[i].id@ != target@,
{
    let mut cn = table.closest_nodes(*target, now);
    let mut going: usize = 1;
    while going == 1
        invariant
            crate::table::cn_wf(cn),
            cn.now == now,
            going <= 1,
            forall|k: int|
                0 <= k < cn.nodes@.len() ==> table_contains(*table, #[trigger] cn.nodes@[k]),
            forall|b: int, i: int|
                #[trigger] crate::table::cn_yields(table.buckets@, b, i, now)
                    ==> crate::table::seq_has(cn.nodes@, table.buckets@[b].nodes@[i]),
            forall|k: int| 0 <= k < cn.pos ==> (#[trigger] cn.nodes@[k]).id@ != target@,
            going == 0 ==> cn.pos == cn.nodes@.len(),
        decreases cn.nodes@.len() - cn.pos, going,
    {
        match cn.next() {
            Some(n) => {
                if n.id.same(target) {
                    return Ok(n.addr);
                }
            },
            None => {
                going = 0;
            },
        }
    }
    proof {
        assert forall|b: int, i: int|
            #[trigger] crate::table::cn_yields(table.buckets@, b, i, now) implies
            table.buckets@[b].nodes@[i].id@ != target@ by {
            let n = table.buckets@[b].nodes@[i];
            let j = choose|j: int| 0 <= j < cn.nodes@.len() && #[trigger] cn.nodes@[j] == n;
            assert(cn.nodes@[j].id@ != target@);
        }
    }
    Err(KTransError::Timeout)
}

/// The state the loop owns: our id, the routing table, the pending
/// transactions and whether the loop still runs.
pub struct KService {
    pub node_id: BtDhtHash,
    pub table: Table,
    pub trans: KTrans<KPending>,
    pub running: bool,
}

/// The service invariant.
pub open spec fn wf_service(s: KService) -> bool {
    &&& wf_table(s.table)
    &&& s.table.node_id == s.node_id
    &&& distinct_keys(s.trans.pool@)
}

impl KService {
    /// A fresh service around an empty table, ready to run.
    pub fn new(node_id: BtDhtHash) -> (r: KService)
        ensures
            wf_service(r),
            r.node_id == node_id,
            r.running,
            r.trans.pool@.len() == 0,
            r.trans.last_tid == 0,
            r.table.buckets@.len() == 1,
    {
        KService { node_id, table: Table::new(node_id), trans: KTrans::new(), running: true }
    }

    /// One transition of the event loop: classify the event, update the
    /// state, and say what the host must do.
    pub fn step(&mut self, event: KEvent, now: u64) -> (r: Vec<KAction>)
        requires
            wf_service(*old(self)),
        ensures
            wf_service(*final(self)),
            final(self).node_id == old(self).node_id,
            event matches KEvent::Net { from, msg } ==> msg matches KMessage::Query { tid, arg, .. } ==> {
                &&& r@.len() == 1
                &&& (r@[0] matches KAction::Send { to, msg } && to == from && spec_reply(
                    msg,
                    tid@,
                    arg,
                    old(self).node_id,
                ))
                &&& final(self).running == old(self).running
                &&& final(self).trans == old(self).trans
                &&& marked_request(old(self).table, final(self).table, spec_arg_id(arg)@, from, now)
            },
            event matches KEvent::Net { from, msg } ==> msg matches KMessage::Response { tid, res, .. } ==> {
                &&& final(self).running == old(self).running
                &&& final(self).trans.last_tid == old(self).trans.last_tid
                &&& if tid@.len() == 2 {
                    let k = trans_key(from, be16_val(tid@) as u16);
                    &&& final(self).trans.pool@ == remove_key(old(self).trans.pool@, k)
                    &&& match lookup(old(self).trans.pool@, k) {
                        Some(p) => r@ == seq![
                            (KAction::Complete { call: p.call, reply: KReply::Res(res) }),
                        ] && marked_response(
                            old(self).table,
                            final(self).table,
                            spec_res_id(res)@,
                            from,
                            now,
                        ),
                        None => r@ == Seq::<KAction>::empty() && final(self).table == old(
                            self,
                        ).table,
                    }
                } else {
                    r@ == Seq::<KAction>::empty() && final(self).trans.pool@ == old(
                        self,
                    ).trans.pool@ && final(self).table == old(self).table
                }
            },
            event matches KEvent::Net { from, msg } ==> msg matches KMessage::Error { tid, code, message, .. } ==> {
                &&& final(self).running == old(self).running
                &&& final(self).table == old(self).table
                &&& final(self).trans.last_tid == old(self).trans.last_tid
                &&& if tid@.len() == 2 {
                    let k = trans_key(from, be16_val(tid@) as u16);
                    &&& final(self).trans.pool@ == remove_key(old(self).trans.pool@, k)
                    &&& match lookup(old(self).trans.pool@, k) {
                        Some(p) => r@ == seq![
                            (KAction::Complete {
                                call: p.call,
                                reply: KReply::Error(KTransError::KError(code, message)),
                            }),
                        ],
                        None => r@ == Seq::<KAction>::empty(),
                    }
                } else {
                    r@ == Seq::<KAction>::empty() && final(self).trans.pool@ == old(
                        self,
                    ).trans.pool@
                }
            },
            event matches KEvent::Api { cmd } ==> cmd matches KCommand::Query { addr, arg, call, timeout } ==> {
                if old(self).running {
                    let ntid = ((old(self).trans.last_tid + 1) % 0x10000) as u16;
                    let k = trans_key(addr, ntid);
                    &&& final(self).running
                    &&& final(self).trans.last_tid == ntid
                    &&& final(self).trans.pool@ == remove_key(old(self).trans.pool@, k).push(
                        (k as u64, KPending { call, deadline: spec_deadline(now, timeout) }),
                    )
                    &&& r@.len() == 1
                    &&& (r@[0] matches KAction::Send { to, msg } && to == addr && (msg
                        matches KMessage::Query { tid, query, arg: a2 } && tid@ == be16(ntid)
                        && query == spec_query_of(arg) && a2 == arg))
                    &&& marked_local(old(self).table, final(self).table, addr, now)
                } else {
                    &&& r@.len() == 1
                    &&& (r@[0] matches KAction::Complete { call: c, reply } && c == call && (reply
                        matches KReply::Error(e) && (e matches KTransError::IOError(m) && m@
                        == shutting_down())))
                    &&& *final(self) == *old(self)
                }
            },
            event matches KEvent::Api { cmd } ==> cmd matches KCommand::Finalize ==> {
                &&& !final(self).running
                &&& final(self).trans.pool@.len() == 0
                &&& final(self).table == old(self).table
                &&& r@.len() == old(self).trans.pool@.len() + 1
                &&& forall|i: int|
                    0 <= i < old(self).trans.pool@.len() ==> (#[trigger] r@[i] matches
                        KAction::Complete { call, reply } && call == old(
                        self,
                    ).trans.pool@[i].1.call && (reply matches KReply::Error(e) && (e matches
                        KTransError::IOError(m) && m@ == shutting_down())))
                &&& r@[r@.len() - 1] == KAction::Stop
            },
            (event matches KEvent::Tick) ==> ({
                &&& final(self).running == old(self).running
                &&& final(self).table == old(self).table
                &&& final(self).trans.last_tid == old(self).trans.last_tid
                &&& final(self).trans.pool@ == old(self).trans.pool@.filter(
                    |e: (u64, KPending)| e.1.deadline > now,
                )
                &&& r@ == old(self).trans.pool@.filter(
                    |e: (u64, KPending)| e.1.deadline <= now,
                ).map_values(
                    |e: (u64, KPending)|
                        (KAction::Complete {
                            call: e.1.call,
                            reply: KReply::Error(KTransError::Timeout),
                        }),
                )
            }),
    {
        match event {
            KEvent::Net { from, msg } => match msg {
                KMessage::Query { tid, query: _, arg } => {
                    let handled = handle_query(&arg, &self.node_id);
                    let aid = arg_id(&arg);
                    self.table.remote_request(&aid, from, now);
                    let reply = match handled {
                        KHandled::Res(res) => KMessage::Response { ip: None, tid, res },
                        KHandled::Error(code, message) => KMessage::Error {
                            ip: None,
                            tid,
                            code,
                            message,
                        },
                    };
                    let mut acts: Vec<KAction> = Vec::new();
                    acts.push(KAction::Send { to: from, msg: reply });
                    acts
                },
                KMessage::Response { ip: _, tid, res } => {
                    match self.trans.end(from, &tid) {
                        Some(p) => {
                            let rid = res_id(&res);
                            self.table.remote_response(&rid, from, now);
                            let mut acts: Vec<KAction> = Vec::new();
                            acts.push(KAction::Complete { call: p.call, reply: KReply::Res(res) });
                            acts
                        },
                        None => Vec::new(),
                    }
                },
                KMessage::Error { ip: _, tid, code, message } => {
                    match self.trans.end(from, &tid) {
                        Some(p) => {
                            let mut acts: Vec<KAction> = Vec::new();
                            acts.push(
                                KAction::Complete {
                                    call: p.call,
                                    reply: KReply::Error(KTransError::KError(code, message)),
                                },
                            );
                            acts
                        },
                        None => Vec::new(),
                    }
                },
            },
            KEvent::Api { cmd } => match cmd {
                KCommand::Query { addr, arg, call, timeout } => {
                    if !self.running {
                        let mut m: Vec<u8> = Vec::new();
                        append_slice(
                            &mut m,
                            &[115, 104, 117, 116, 116, 105, 110, 103, 32, 100, 111, 119, 110],
                        );
                        proof {
                            assert(m@ =~= shutting_down());
                        }
                        let mut acts: Vec<KAction> = Vec::new();
                        acts.push(
                            KAction::Complete {
                                call,
                                reply: KReply::Error(KTransError::IOError(m)),
                            },
                        );
                        acts
                    } else {
                        let deadline: u64 = if timeout > u64::MAX - now {
                            u64::MAX
                        } else {
                            now + timeout
                        };
                        let q = query_of(&arg);
                        let tid = self.trans.start(addr, KPending { call, deadline });
                        self.table.local_request(addr, now);
                        let mut acts: Vec<KAction> = Vec::new();
                        acts.push(
                            KAction::Send { to: addr, msg: KMessage::Query { tid, query: q, arg } },
                        );
                        acts
                    }
                },
                KCommand::Finalize => {
                    self.running = false;
                    let mut acts: Vec<KAction> = Vec::new();
                    let count = self.trans.pool.len();
                    let mut i: usize = 0;
                    while i < count
                        invariant
                            0 <= i <= count,
                            count == self.trans.pool@.len(),
                            acts@.len() == i,
                            forall|j: int|
                                0 <= j < i ==> (#[trigger] acts@[j] matches KAction::Complete {
                                    call,
                                    reply,
                                } && call == self.trans.pool@[j].1.call && (reply matches
                                    KReply::Error(e) && (e matches KTransError::IOError(m) && m@
                                    == shutting_down()))),
                            self.trans == old(self).trans,
                        decreases count - i,
                    {
                        let mut m: Vec<u8> = Vec::new();
                        append_slice(
                            &mut m,
                            &[115, 104, 117, 116, 116, 105, 110, 103, 32, 100, 111, 119, 110],
                        );
                        proof {
                            assert(m@ =~= shutting_down());
                        }
                        let call = self.trans.pool[i].1.call;
                        acts.push(
                            KAction::Complete { call, reply: KReply::Error(KTransError::IOError(m)) },
                        );
                        i += 1;
                    }
                    self.trans.pool = Vec::new();
                    acts.push(KAction::Stop);
                    acts
                },
            },
            KEvent::Tick => {
                let ghost keepf = |e: (u64, KPending)| e.1.deadline > now;
                let ghost dropf = |e: (u64, KPending)| e.1.deadline <= now;
                let ghost convf = |e: (u64, KPending)|
                    (KAction::Complete {
                        call: e.1.call,
                        reply: KReply::Error(KTransError::Timeout),
                    });
                let mut kept: Vec<(u64, KPending)> = Vec::new();
                let mut acts: Vec<KAction> = Vec::new();
                let ghost mut srcs: Seq<int> = Seq::empty();
                let count = self.trans.pool.len();
                let mut i: usize = 0;
                while i < count
                    invariant
                        0 <= i <= count,
                        count == self.trans.pool@.len(),
                        self.trans == old(self).trans,
                        distinct_keys(self.trans.pool@),
                        kept@ == self.trans.pool@.subrange(0, i as int).filter(keepf),
                        acts@ == self.trans.pool@.subrange(0, i as int).filter(dropf).map_values(
                            convf,
                        ),
                        keepf == (|e: (u64, KPending)| e.1.deadline > now),
                        dropf == (|e: (u64, KPending)| e.1.deadline <= now),
                        convf == (|e: (u64, KPending)|
                            (KAction::Complete {
                                call: e.1.call,
                                reply: KReply::Error(KTransError::Timeout),
                            })),
                        srcs.len() == kept@.len(),
                        forall|j: int|
                            0 <= j < srcs.len() ==> 0 <= #[trigger] srcs[j] < i && kept@[j]
                                == self.trans.pool@[srcs[j]],
                        forall|j1: int, j2: int| 0 <= j1 < j2 < srcs.len() ==> srcs[j1] < srcs[j2],
                    decreases count - i,
                {
                    let ghost pre = self.trans.pool@.subrange(0, i as int);
                    let ghost post = self.trans.pool@.subrange(0, i + 1);
                    let e = self.trans.pool[i];
                    if e.1.deadline > now {
                        kept.push(e);
                        proof {
                            srcs = srcs.push(i as int);
                        }
                    } else {
                        acts.push(
                            KAction::Complete {
                                call: e.1.call,
                                reply: KReply::Error(KTransError::Timeout),
                            },
                        );
                    }
                    proof {
                        reveal(Seq::filter);
                        assert(post.drop_last() =~= pre);
                        assert(post.last() == self.trans.pool@[i as int]);
                        assert(acts@ =~= post.filter(dropf).map_values(convf));
                        assert(kept@ =~= post.filter(keepf));
                    }
                    i += 1;
                }
                proof {
                    assert(self.trans.pool@.subrange(0, count as int) =~= self.trans.pool@);
                    assert(distinct_keys(kept@)) by {
                        assert forall|j1: int, j2: int|
                            0 <= j1 < j2 < kept@.len() implies (#[trigger] kept@[j1]).0 != (
                        #[trigger] kept@[j2]).0 by {
                            assert(kept@[j1] == self.trans.pool@[srcs[j1]]);
                            assert(kept@[j2] == self.trans.pool@[srcs[j2]]);
                        }
                    }
                }
                self.trans.pool = kept;
                acts
            },
        }
    }
}

} // verus!

