//! The bencode codec for KRPC messages. Encoding is canonical: dictionary
//! keys in byte order, integers without leading zeros. The decoder accepts
//! exactly the canonical forms: whatever it yields re-encodes to the input.

use vstd::prelude::*;
use crate::bt_dht::BtDhtArg;
use crate::bt_dht::BtDhtHash;
use crate::bt_dht::BtDhtMessage;
use crate::bt_dht::BtDhtNodeInfo;
use crate::bt_dht::BtDhtPeerInfo;
use crate::bt_dht::BtDhtQuery;
use crate::bt_dht::BtDhtRes;
use crate::bt_dht::from_bytes;
use crate::krpc::KAddress;
use crate::krpc::KError;
use crate::krpc::KMessage;
use crate::krpc::spec_code;
use crate::nodes_info::compact_addr;
use crate::nodes_info::compact_nodes;
use crate::nodes_info::append_addr;
use crate::nodes_info::addr_from_bytes;

verus! {

/// Decimal digits of a non-negative number, most significant first.
pub open spec fn dec_rep(n: int) -> Seq<u8>
    decreases n,
{
    if n < 10 {
        seq![(48 + if n < 0 {
            0
        } else {
            n
        }) as u8]
    } else {
        dec_rep(n / 10).push((48 + n % 10) as u8)
    }
}

/// A bencode string: decimal length, a colon, the bytes.
pub open spec fn enc_str(s: Seq<u8>) -> Seq<u8> {
    dec_rep(s.len() as int) + seq![58u8] + s
}

/// A bencode integer: `i`, decimal digits, `e`.
pub open spec fn enc_int(n: int) -> Seq<u8> {
    seq![105u8] + dec_rep(n) + seq![101u8]
}

/// The wire name of a query method.
pub open spec fn query_name(q: BtDhtQuery) -> Seq<u8> {
    match q {
        BtDhtQuery::Ping => seq![112u8, 105, 110, 103],
        BtDhtQuery::FindNode => seq![102u8, 105, 110, 100, 95, 110, 111, 100, 101],
        BtDhtQuery::GetPeers => seq![103u8, 101, 116, 95, 112, 101, 101, 114, 115],
        BtDhtQuery::AnnouncePeer => seq![
            97u8,
            110,
            110,
            111,
            117,
            110,
            99,
            101,
            95,
            112,
            101,
            101,
            114,
        ],
    }
}

/// The encoded values list of a get_peers reply: one bencode string of
/// 6 compact bytes per peer.
pub open spec fn enc_values(vs: Seq<BtDhtPeerInfo>) -> Seq<u8>
    decreases vs.len(),
{
    if vs.len() == 0 {
        Seq::empty()
    } else {
        enc_values(vs.drop_last()) + enc_str(compact_addr(vs.last().addr))
    }
}

/// The argument dictionary of a query, keys in canonical order.
pub open spec fn enc_arg(a: BtDhtArg) -> Seq<u8> {
    match a {
        BtDhtArg::Ping { id } => seq![100u8, 50, 58, 105, 100] + enc_str(id@) + seq![101u8],
        BtDhtArg::FindNode { id, target } => seq![100u8, 50, 58, 105, 100] + enc_str(id@) + seq![
            54u8,
            58,
            116,
            97,
            114,
            103,
            101,
            116,
        ] + enc_str(target@) + seq![101u8],
        BtDhtArg::GetPeers { id, info_hash } => seq![100u8, 50, 58, 105, 100] + enc_str(id@)
            + key_info_hash() + enc_str(info_hash@) + seq![101u8],
        BtDhtArg::AnnouncePeer { id, implied_port, info_hash, port, token } => seq![
            100u8,
            50,
            58,
            105,
            100,
        ] + enc_str(id@) + key_implied_port() + enc_int(
            if implied_port {
                1
            } else {
                0
            },
        ) + key_info_hash() + enc_str(info_hash@) + seq![52u8, 58, 112, 111, 114, 116] + enc_int(
            port as int,
        ) + key_token() + enc_str(token@) + seq![101u8],
    }
}

/// The bytes of the key `info_hash` with its length prefix.
pub open spec fn key_info_hash() -> Seq<u8> {
    seq![57u8, 58, 105, 110, 102, 111, 95, 104, 97, 115, 104]
}

/// The bytes of the key `implied_port` with its length prefix.
pub open spec fn key_implied_port() -> Seq<u8> {
    seq![49u8, 50, 58, 105, 109, 112, 108, 105, 101, 100, 95, 112, 111, 114, 116]
}

/// The bytes of the key `token` with its length prefix.
pub open spec fn key_token() -> Seq<u8> {
    seq![53u8, 58, 116, 111, 107, 101, 110]
}

/// The bytes of the key `nodes` with its length prefix.
pub open spec fn key_nodes() -> Seq<u8> {
    seq![53u8, 58, 110, 111, 100, 101, 115]
}

/// The response dictionary, keys in canonical order.
pub open spec fn enc_res(r: BtDhtRes) -> Seq<u8> {
    match r {
        BtDhtRes::Pong { id } => seq![100u8, 50, 58, 105, 100] + enc_str(id@) + seq![101u8],
        BtDhtRes::FindNode { id, nodes } => seq![100u8, 50, 58, 105, 100] + enc_str(id@)
            + key_nodes() + enc_str(compact_nodes(nodes@)) + seq![101u8],
        BtDhtRes::GetPeersNodes { id, token, nodes } => seq![100u8, 50, 58, 105, 100] + enc_str(id@)
            + key_nodes() + enc_str(compact_nodes(nodes@)) + key_token() + enc_str(token@) + seq![
            101u8,
        ],
        BtDhtRes::GetPeersValues { id, token, values } => seq![100u8, 50, 58, 105, 100] + enc_str(
            id@,
        ) + key_token() + enc_str(token@) + seq![54u8, 58, 118, 97, 108, 117, 101, 115, 108]
            + enc_values(values@) + seq![101u8, 101],
    }
}

/// The whole message: the canonical bencode dictionary sent on the wire.
pub open spec fn enc_msg(m: BtDhtMessage) -> Seq<u8> {
    match m {
        KMessage::Query { tid, query, arg } => seq![100u8, 49, 58, 97] + enc_arg(arg) + seq![
            49u8,
            58,
            113,
        ] + enc_str(query_name(query)) + seq![49u8, 58, 116] + enc_str(tid@) + seq![
            49u8,
            58,
            121,
            49,
            58,
            113,
            101,
        ],
        KMessage::Response { ip, tid, res } => seq![100u8] + enc_ip(ip) + seq![49u8, 58, 114]
            + enc_res(res) + seq![49u8, 58, 116] + enc_str(tid@) + seq![
            49u8,
            58,
            121,
            49,
            58,
            114,
            101,
        ],
        KMessage::Error { ip, tid, code, message } => seq![100u8, 49, 58, 101, 108] + enc_int(
            spec_code(code),
        ) + enc_str(message@) + seq![101u8] + enc_ip(ip) + seq![49u8, 58, 116] + enc_str(tid@)
            + seq![49u8, 58, 121, 49, 58, 101, 101],
    }
}

/// The optional observed-address entry of a response or error.
pub open spec fn enc_ip(ip: Option<KAddress>) -> Seq<u8> {
    match ip {
        Some(a) => seq![50u8, 58, 105, 112] + enc_str(compact_addr(a)),
        None => Seq::empty(),
    }
}

/// Append a byte slice.
pub fn append_slice(out: &mut Vec<u8>, s: &[u8])
    ensures
        final(out)@ == old(out)@ + s@,
{
    let mut i: usize = 0;
    while i < s.len()
        invariant
            0 <= i <= s@.len(),
            out@ == old(out)@ + s@.subrange(0, i as int),
        decreases s@.len() - i,
    {
        out.push(s[i]);
        proof {
            assert(out@ =~= old(out)@ + s@.subrange(0, i + 1));
        }
        i += 1;
    }
    proof {
        assert(out@ =~= old(out)@ + s@);
    }
}

/// The reversal of a byte sequence.
spec fn rev_seq(s: Seq<u8>) -> Seq<u8> {
    Seq::new(s.len(), |j: int| s[s.len() - 1 - j])
}

/// Append the decimal digits of `n`.
pub fn append_dec(out: &mut Vec<u8>, n: u64)
    ensures
        final(out)@ == old(out)@ + dec_rep(n as int),
{
    let mut tmp: Vec<u8> = Vec::new();
    let mut m: u64 = n;
    while m >= 10
        invariant
            dec_rep(n as int) == dec_rep(m as int) + rev_seq(tmp@),
            out@ == old(out)@,
        decreases m,
    {
        let ghost pre = tmp@;
        tmp.push(48 + (m % 10) as u8);
        proof {
            assert(rev_seq(tmp@) =~= seq![(48 + (m as int) % 10) as u8] + rev_seq(pre));
            assert(dec_rep(n as int) =~= dec_rep(m as int / 10) + rev_seq(tmp@));
        }
        m = m / 10;
    }
    let ghost pre = tmp@;
    tmp.push(48 + (m % 10) as u8);
    proof {
        assert((m as int) % 10 == m as int);
        assert(rev_seq(tmp@) =~= seq![(48 + (m as int)) as u8] + rev_seq(pre));
        assert(dec_rep(n as int) =~= rev_seq(tmp@));
    }
    let ghost target = rev_seq(tmp@);
    let count = tmp.len();
    let mut j: usize = 0;
    while j < count
        invariant
            0 <= j <= count,
            count == tmp@.len(),
            target == rev_seq(tmp@),
            dec_rep(n as int) == target,
            out@ == old(out)@ + target.subrange(0, j as int),
        decreases count - j,
    {
        out.push(tmp[count - 1 - j]);
        proof {
            assert(out@ =~= old(out)@ + target.subrange(0, j + 1));
        }
        j += 1;
    }
    proof {
        assert(out@ =~= old(out)@ + dec_rep(n as int));
    }
}

/// Append a bencode string.
pub fn append_str(out: &mut Vec<u8>, s: &[u8])
    ensures
        final(out)@ == old(out)@ + enc_str(s@),
{
    append_dec(out, s.len() as u64);
    out.push(58);
    append_slice(out, s);
    proof {
        assert(out@ =~= old(out)@ + enc_str(s@));
    }
}

/// Append a bencode integer.
pub fn append_int(out: &mut Vec<u8>, n: u64)
    ensures
        final(out)@ == old(out)@ + enc_int(n as int),
{
    out.push(105);
    append_dec(out, n);
    out.push(101);
    proof {
        assert(out@ =~= old(out)@ + enc_int(n as int));
    }
}

/// Append the wire form of an argument dictionary.
fn append_arg(out: &mut Vec<u8>, a: &BtDhtArg)
    ensures
        final(out)@ == old(out)@ + enc_arg(*a),
{
    out.push(100);
    append_slice(out, &[50, 58, 105, 100]);
    match a {
        BtDhtArg::Ping { id } => {
            append_str(out, &id.0);
        },
        BtDhtArg::FindNode { id, target } => {
            append_str(out, &id.0);
            append_slice(out, &[54, 58, 116, 97, 114, 103, 101, 116]);
            append_str(out, &target.0);
        },
        BtDhtArg::GetPeers { id, info_hash } => {
            append_str(out, &id.0);
            append_slice(out, &[57, 58, 105, 110, 102, 111, 95, 104, 97, 115, 104]);
            append_str(out, &info_hash.0);
        },
        BtDhtArg::AnnouncePeer { id, implied_port, info_hash, port, token } => {
            append_str(out, &id.0);
            append_slice(
                out,
                &[49, 50, 58, 105, 109, 112, 108, 105, 101, 100, 95, 112, 111, 114, 116],
            );
            append_int(
                out,
                if *implied_port {
                    1
                } else {
                    0
                },
            );
            append_slice(out, &[57, 58, 105, 110, 102, 111, 95, 104, 97, 115, 104]);
            append_str(out, &info_hash.0);
            append_slice(out, &[52, 58, 112, 111, 114, 116]);
            append_int(out, *port as u64);
            append_slice(out, &[53, 58, 116, 111, 107, 101, 110]);
            append_str(out, token.as_slice());
        },
    }
    out.push(101);
    proof {
        assert(out@ =~= old(out)@ + enc_arg(*a));
    }
}

/// Append the wire form of a values list.
fn append_values(out: &mut Vec<u8>, vs: &Vec<BtDhtPeerInfo>)
    ensures
        final(out)@ == old(out)@ + enc_values(vs@),
{
    let mut i: usize = 0;
    while i < vs.len()
        invariant
            0 <= i <= vs@.len(),
            out@ == old(out)@ + enc_values(vs@.subrange(0, i as int)),
        decreases vs@.len() - i,
    {
        let ghost pre = vs@.subrange(0, i as int);
        let ghost post = vs@.subrange(0, i + 1);
        append_dec(out, 6);
        out.push(58);
        append_addr(out, vs[i].addr);
        proof {
            assert(post.drop_last() =~= pre);
            assert(post.last() == vs@[i as int]);
            assert(dec_rep(6) =~= seq![54u8]);
            assert(enc_str(compact_addr(vs@[i as int].addr)) =~= dec_rep(6) + seq![58u8]
                + compact_addr(vs@[i as int].addr));
            assert(out@ =~= old(out)@ + enc_values(post));
        }
        i += 1;
    }
    proof {
        assert(vs@.subrange(0, vs@.len() as int) =~= vs@);
    }
}

/// Append the wire form of a response dictionary.
fn append_res(out: &mut Vec<u8>, r: &BtDhtRes)
    ensures
        final(out)@ == old(out)@ + enc_res(*r),
{
    out.push(100);
    append_slice(out, &[50, 58, 105, 100]);
    match r {
        BtDhtRes::Pong { id } => {
            append_str(out, &id.0);
        },
        BtDhtRes::FindNode { id, nodes } => {
            append_str(out, &id.0);
            append_slice(out, &[53, 58, 110, 111, 100, 101, 115]);
            let compact = crate::nodes_info::serialize(nodes);
            append_str(out, compact.as_slice());
        },
        BtDhtRes::GetPeersNodes { id, token, nodes } => {
            append_str(out, &id.0);
            append_slice(out, &[53, 58, 110, 111, 100, 101, 115]);
            let compact = crate::nodes_info::serialize(nodes);
            append_str(out, compact.as_slice());
            append_slice(out, &[53, 58, 116, 111, 107, 101, 110]);
            append_str(out, token.as_slice());
        },
        BtDhtRes::GetPeersValues { id, token, values } => {
            append_str(out, &id.0);
            append_slice(out, &[53, 58, 116, 111, 107, 101, 110]);
            append_str(out, token.as_slice());
            append_slice(out, &[54, 58, 118, 97, 108, 117, 101, 115, 108]);
            append_values(out, values);
            out.push(101);
        },
    }
    out.push(101);
    proof {
        assert(out@ =~= old(out)@ + enc_res(*r));
    }
}

/// Append the optional observed-address entry.
fn append_ip(out: &mut Vec<u8>, ip: &Option<KAddress>)
    ensures
        final(out)@ == old(out)@ + enc_ip(*ip),
{
    match ip {
        Some(a) => {
            append_slice(out, &[50, 58, 105, 112, 54, 58]);
            append_addr(out, *a);
            proof {
                assert(dec_rep(6) =~= seq![54u8]);
                assert(out@ =~= old(out)@ + enc_ip(*ip));
            }
        },
        None => {},
    }
}

/// Parse an unsigned decimal number at `i`: at least one digit, and a
/// value that fits 64 bits.
fn parse_num(buf: &[u8], i: usize) -> (r: Option<(u64, usize)>)
    requires
        i <= buf@.len(),
    ensures
        r matches Some(p) ==> i < p.1 <= buf@.len(),
{
    let n = buf.len();
    let mut j: usize = i;
    let mut acc: u64 = 0;
    while j < n && 48 <= buf[j] && buf[j] <= 57
        invariant
            i <= j <= n,
            n == buf@.len(),
        decreases n - j,
    {
        if acc > 1844674407370955160u64 {
            return None;
        }
        acc = acc * 10 + ((buf[j] - 48) as u64);
        j += 1;
    }
    if j == i {
        None
    } else {
        Some((acc, j))
    }
}

/// Consume one expected byte.
fn expect_byte(buf: &[u8], i: usize, b: u8) -> (r: Option<usize>)
    requires
        i <= buf@.len(),
    ensures
        r matches Some(j) ==> i < j <= buf@.len(),
{
    if i < buf.len() && buf[i] == b {
        Some(i + 1)
    } else {
        None
    }
}

/// Consume an expected run of bytes.
fn expect_slice(buf: &[u8], i: usize, pat: &[u8]) -> (r: Option<usize>)
    requires
        i <= buf@.len(),
    ensures
        r matches Some(j) ==> i <= j <= buf@.len() && j == i + pat@.len(),
{
    let n = buf.len();
    let pl = pat.len();
    if n - i < pl {
        return None;
    }
    let mut k: usize = 0;
    while k < pl
        invariant
            0 <= k <= pl,
            pl == pat@.len(),
            n == buf@.len(),
            i + pl <= n,
        decreases pl - k,
    {
        if buf[i + k] != pat[k] {
            return None;
        }
        k += 1;
    }
    Some(i + pl)
}

/// Parse a bencode string into its bytes.
fn parse_str(buf: &[u8], i: usize) -> (r: Option<(Vec<u8>, usize)>)
    requires
        i <= buf@.len(),
    ensures
        r matches Some(p) ==> i < p.1 <= buf@.len(),
{
    let (v, j) = match parse_num(buf, i) {
        Some(p) => p,
        None => {
            return None;
        },
    };
    let j = match expect_byte(buf, j, 58) {
        Some(j) => j,
        None => {
            return None;
        },
    };
    let n = buf.len();
    if v > (n - j) as u64 {
        return None;
    }
    let l = v as usize;
    let mut out: Vec<u8> = Vec::new();
    let mut k: usize = 0;
    while k < l
        invariant
            0 <= k <= l,
            n == buf@.len(),
            j + l <= n,
        decreases l - k,
    {
        out.push(buf[j + k]);
        k += 1;
    }
    Some((out, j + l))
}

/// Parse a bencode string that must hold a 20-byte hash.
fn parse_hash(buf: &[u8], i: usize) -> (r: Option<(BtDhtHash, usize)>)
    requires
        i <= buf@.len(),
    ensures
        r matches Some(p) ==> i < p.1 <= buf@.len(),
{
    let (v, j) = match parse_str(buf, i) {
        Some(p) => p,
        None => {
            return None;
        },
    };
    match from_bytes(v.as_slice()) {
        Ok(h) => Some((BtDhtHash(h), j)),
        Err(_) => None,
    }
}

/// Parse a bencode integer.
fn parse_int(buf: &[u8], i: usize) -> (r: Option<(u64, usize)>)
    requires
        i <= buf@.len(),
    ensures
        r matches Some(p) ==> i < p.1 <= buf@.len(),
{
    let j = match expect_byte(buf, i, 105) {
        Some(j) => j,
        None => {
            return None;
        },
    };
    let (v, j) = match parse_num(buf, j) {
        Some(p) => p,
        None => {
            return None;
        },
    };
    match expect_byte(buf, j, 101) {
        Some(j) => Some((v, j)),
        None => None,
    }
}

/// Parse a bencode string that must hold a 6-byte compact address.
fn parse_addr6(buf: &[u8], i: usize) -> (r: Option<(KAddress, usize)>)
    requires
        i <= buf@.len(),
    ensures
        r matches Some(p) ==> i < p.1 <= buf@.len(),
{
    let (v, j) = match parse_str(buf, i) {
        Some(p) => p,
        None => {
            return None;
        },
    };
    if v.len() != 6 {
        return None;
    }
    Some((addr_from_bytes(v.as_slice(), 0), j))
}

/// Parse the optional observed-address entry.
fn parse_opt_ip(buf: &[u8], i: usize) -> (r: Option<(Option<KAddress>, usize)>)
    requires
        i <= buf@.len(),
    ensures
        r matches Some(p) ==> i <= p.1 <= buf@.len(),
{
    if let Some(j) = expect_slice(buf, i, &[50, 58, 105, 112]) {
        match parse_addr6(buf, j) {
            Some((a, j2)) => Some((Some(a), j2)),
            None => None,
        }
    } else {
        Some((None, i))
    }
}

/// Parse an argument dictionary, discriminating by its key set.
fn parse_arg(buf: &[u8], i: usize) -> (r: Option<(BtDhtArg, usize)>)
    requires
        i <= buf@.len(),
    ensures
        r matches Some(p) ==> i < p.1 <= buf@.len(),
{
    let j = match expect_byte(buf, i, 100) {
        Some(j) => j,
        None => {
            return None;
        },
    };
    let j = match expect_slice(buf, j, &[50, 58, 105, 100]) {
        Some(j) => j,
        None => {
            return None;
        },
    };
    let (id, j) = match parse_hash(buf, j) {
        Some(p) => p,
        None => {
            return None;
        },
    };
    if let Some(j2) = expect_byte(buf, j, 101) {
        return Some((BtDhtArg::Ping { id }, j2));
    }
    if let Some(j2) = expect_slice(
        buf,
        j,
        &[49, 50, 58, 105, 109, 112, 108, 105, 101, 100, 95, 112, 111, 114, 116],
    ) {
        let (ipv, j3) = match parse_int(buf, j2) {
            Some(p) => p,
            None => {
                return None;
            },
        };
        if ipv > 1 {
            return None;
        }
        let j4 = match expect_slice(buf, j3, &[57, 58, 105, 110, 102, 111, 95, 104, 97, 115, 104]) {
            Some(j) => j,
            None => {
                return None;
            },
        };
        let (info_hash, j5) = match parse_hash(buf, j4) {
            Some(p) => p,
            None => {
                return None;
            },
        };
        let j6 = match expect_slice(buf, j5, &[52, 58, 112, 111, 114, 116]) {
            Some(j) => j,
            None => {
                return None;
            },
        };
        let (port, j7) = match parse_int(buf, j6) {
            Some(p) => p,
            None => {
                return None;
            },
        };
        if port > 0xffff {
            return None;
        }
        let j8 = match expect_slice(buf, j7, &[53, 58, 116, 111, 107, 101, 110]) {
            Some(j) => j,
            None => {
                return None;
            },
        };
        let (token, j9) = match parse_str(buf, j8) {
            Some(p) => p,
            None => {
                return None;
            },
        };
        let j10 = match expect_byte(buf, j9, 101) {
            Some(j) => j,
            None => {
                return None;
            },
        };
        return Some(
            (
                BtDhtArg::AnnouncePeer {
                    id,
                    implied_port: ipv == 1,
                    info_hash,
                    port: port as u16,
                    token,
                },
                j10,
            ),
        );
    }
    if let Some(j2) = expect_slice(buf, j, &[57, 58, 105, 110, 102, 111, 95, 104, 97, 115, 104]) {
        let (info_hash, j3) = match parse_hash(buf, j2) {
            Some(p) => p,
            None => {
                return None;
            },
        };
        let j4 = match expect_byte(buf, j3, 101) {
            Some(j) => j,
            None => {
                return None;
            },
        };
        return Some((BtDhtArg::GetPeers { id, info_hash }, j4));
    }
    if let Some(j2) = expect_slice(buf, j, &[54, 58, 116, 97, 114, 103, 101, 116]) {
        let (target, j3) = match parse_hash(buf, j2) {
            Some(p) => p,
            None => {
                return None;
            },
        };
        let j4 = match expect_byte(buf, j3, 101) {
            Some(j) => j,
            None => {
                return None;
            },
        };
        return Some((BtDhtArg::FindNode { id, target }, j4));
    }
    None
}

/// Parse a values list: 6-byte compact addresses until the list ends.
fn parse_values(buf: &[u8], i: usize) -> (r: Option<(Vec<BtDhtPeerInfo>, usize)>)
    requires
        i <= buf@.len(),
    ensures
        r matches Some(p) ==> i < p.1 <= buf@.len(),
{
    let n = buf.len();
    let mut vals: Vec<BtDhtPeerInfo> = Vec::new();
    let mut j: usize = i;
    while j < n && buf[j] != 101
        invariant
            i <= j <= n,
            n == buf@.len(),
        decreases n - j,
    {
        let (a, j2) = match parse_addr6(buf, j) {
            Some(p) => p,
            None => {
                return None;
            },
        };
        vals.push(BtDhtPeerInfo { addr: a });
        j = j2;
    }
    match expect_byte(buf, j, 101) {
        Some(j2) => Some((vals, j2)),
        None => None,
    }
}

/// Parse a response dictionary, discriminating by its key set.
fn parse_res(buf: &[u8], i: usize) -> (r: Option<(BtDhtRes, usize)>)
    requires
        i <= buf@.len(),
    ensures
        r matches Some(p) ==> i < p.1 <= buf@.len(),
{
    let j = match expect_byte(buf, i, 100) {
        Some(j) => j,
        None => {
            return None;
        },
    };
    let j = match expect_slice(buf, j, &[50, 58, 105, 100]) {
        Some(j) => j,
        None => {
            return None;
        },
    };
    let (id, j) = match parse_hash(buf, j) {
        Some(p) => p,
        None => {
            return None;
        },
    };
    if let Some(j2) = expect_byte(buf, j, 101) {
        return Some((BtDhtRes::Pong { id }, j2));
    }
    if let Some(j2) = expect_slice(buf, j, &[53, 58, 110, 111, 100, 101, 115]) {
        let (raw, j3) = match parse_str(buf, j2) {
            Some(p) => p,
            None => {
                return None;
            },
        };
        let nodes = match crate::nodes_info::deserialize(raw.as_slice()) {
            Ok(v) => v,
            Err(_) => {
                return None;
            },
        };
        if let Some(j4) = expect_byte(buf, j3, 101) {
            return Some((BtDhtRes::FindNode { id, nodes }, j4));
        }
        let j4 = match expect_slice(buf, j3, &[53, 58, 116, 111, 107, 101, 110]) {
            Some(j) => j,
            None => {
                return None;
            },
        };
        let (token, j5) = match parse_str(buf, j4) {
            Some(p) => p,
            None => {
                return None;
            },
        };
        let j6 = match expect_byte(buf, j5, 101) {
            Some(j) => j,
            None => {
                return None;
            },
        };
        return Some((BtDhtRes::GetPeersNodes { id, token, nodes }, j6));
    }
    if let Some(j2) = expect_slice(buf, j, &[53, 58, 116, 111, 107, 101, 110]) {
        let (token, j3) = match parse_str(buf, j2) {
            Some(p) => p,
            None => {
                return None;
            },
        };
        let j4 = match expect_slice(buf, j3, &[54, 58, 118, 97, 108, 117, 101, 115, 108]) {
            Some(j) => j,
            None => {
                return None;
            },
        };
        let (values, j5) = match parse_values(buf, j4) {
            Some(p) => p,
            None => {
                return None;
            },
        };
        let j6 = match expect_byte(buf, j5, 101) {
            Some(j) => j,
            None => {
                return None;
            },
        };
        return Some((BtDhtRes::GetPeersValues { id, token, values }, j6));
    }
    None
}

/// Parse one whole datagram into a message, without judging whether the
/// input was canonical; the decoder re-encodes and compares.
fn parse_msg(buf: &[u8]) -> Option<BtDhtMessage> {
    let n = buf.len();
    let j = match expect_byte(buf, 0, 100) {
        Some(j) => j,
        None => {
            return None;
        },
    };
    if let Some(j2) = expect_slice(buf, j, &[49, 58, 97]) {
        let (arg, j3) = match parse_arg(buf, j2) {
            Some(p) => p,
            None => {
                return None;
            },
        };
        let j4 = match expect_slice(buf, j3, &[49, 58, 113]) {
            Some(j) => j,
            None => {
                return None;
            },
        };
        let (qname, j5) = match parse_str(buf, j4) {
            Some(p) => p,
            None => {
                return None;
            },
        };
        let query = if qname.len() == 4 {
            BtDhtQuery::Ping
        } else if qname.len() == 9 && qname[0] == 102 {
            BtDhtQuery::FindNode
        } else if qname.len() == 9 {
            BtDhtQuery::GetPeers
        } else {
            BtDhtQuery::AnnouncePeer
        };
        let j6 = match expect_slice(buf, j5, &[49, 58, 116]) {
            Some(j) => j,
            None => {
                return None;
            },
        };
        let (tid, j7) = match parse_str(buf, j6) {
            Some(p) => p,
            None => {
                return None;
            },
        };
        let j8 = match expect_slice(buf, j7, &[49, 58, 121, 49, 58, 113, 101]) {
            Some(j) => j,
            None => {
                return None;
            },
        };
        if j8 == n {
            return Some(KMessage::Query { tid, query, arg });
        }
        return None;
    }
    if let Some(j2) = expect_slice(buf, j, &[49, 58, 101, 108]) {
        let (code_num, j3) = match parse_int(buf, j2) {
            Some(p) => p,
            None => {
                return None;
            },
        };
        let code = match KError::from_code(code_num) {
            Some(c) => c,
            None => {
                return None;
            },
        };
        let (message, j4) = match parse_str(buf, j3) {
            Some(p) => p,
            None => {
                return None;
            },
        };
        let j5 = match expect_byte(buf, j4, 101) {
            Some(j) => j,
            None => {
                return None;
            },
        };
        let (ip, j6) = match parse_opt_ip(buf, j5) {
            Some(p) => p,
            None => {
                return None;
            },
        };
        let j7 = match expect_slice(buf, j6, &[49, 58, 116]) {
            Some(j) => j,
            None => {
                return None;
            },
        };
        let (tid, j8) = match parse_str(buf, j7) {
            Some(p) => p,
            None => {
                return None;
            },
        };
        let j9 = match expect_slice(buf, j8, &[49, 58, 121, 49, 58, 101, 101]) {
            Some(j) => j,
            None => {
                return None;
            },
        };
        if j9 == n {
            return Some(KMessage::Error { ip, tid, code, message });
        }
        return None;
    }
    let (ip, j2) = match parse_opt_ip(buf, j) {
        Some(p) => p,
        None => {
            return None;
        },
    };
    let j3 = match expect_slice(buf, j2, &[49, 58, 114]) {
        Some(j) => j,
        None => {
            return None;
        },
    };
    let (res, j4) = match parse_res(buf, j3) {
        Some(p) => p,
        None => {
            return None;
        },
    };
    let j5 = match expect_slice(buf, j4, &[49, 58, 116]) {
        Some(j) => j,
        None => {
            return None;
        },
    };
    let (tid, j6) = match parse_str(buf, j5) {
        Some(p) => p,
        None => {
            return None;
        },
    };
    let j7 = match expect_slice(buf, j6, &[49, 58, 121, 49, 58, 114, 101]) {
        Some(j) => j,
        None => {
            return None;
        },
    };
    if j7 == n {
        return Some(KMessage::Response { ip, tid, res });
    }
    None
}

/// Whether a slice and a vector hold the same bytes.
fn bytes_eq(a: &[u8], b: &Vec<u8>) -> (r: bool)
    ensures
        r <==> a@ == b@,
{
    if a.len() != b.len() {
        proof {
            assert(a@.len() != b@.len());
        }
        return false;
    }
    let mut i: usize = 0;
    while i < a.len()
        invariant
            0 <= i <= a@.len(),
            a@.len() == b@.len(),
            forall|j: int| 0 <= j < i ==> a@[j] == b@[j],
        decreases a@.len() - i,
    {
        if a[i] != b[i] {
            return false;
        }
        i += 1;
    }
    proof {
        assert(a@ =~= b@);
    }
    true
}

/// The codec: stateless; encodes and decodes whole datagrams.
pub struct KCodec {}

impl KCodec {
    /// A fresh codec.
    pub fn new() -> Self {
        KCodec {  }
    }

    /// Encode a message to its canonical wire form.
    pub fn encode(&self, msg: &BtDhtMessage) -> (r: Vec<u8>)
        ensures
            r@ == enc_msg(*msg),
    {
        let mut out: Vec<u8> = Vec::new();
        match msg {
            KMessage::Query { tid, query, arg } => {
                out.push(100);
                append_slice(&mut out, &[49, 58, 97]);
                append_arg(&mut out, arg);
                append_slice(&mut out, &[49, 58, 113]);
                let name: &[u8] = match query {
                    BtDhtQuery::Ping => &[112, 105, 110, 103],
                    BtDhtQuery::FindNode => &[102, 105, 110, 100, 95, 110, 111, 100, 101],
                    BtDhtQuery::GetPeers => &[103, 101, 116, 95, 112, 101, 101, 114, 115],
                    BtDhtQuery::AnnouncePeer => &[
                        97,
                        110,
                        110,
                        111,
                        117,
                        110,
                        99,
                        101,
                        95,
                        112,
                        101,
                        101,
                        114,
                    ],
                };
                proof {
                    assert(name@ == query_name(*query));
                }
                append_str(&mut out, name);
                append_slice(&mut out, &[49, 58, 116]);
                append_str(&mut out, tid.as_slice());
                append_slice(&mut out, &[49, 58, 121, 49, 58, 113, 101]);
            },
            KMessage::Response { ip, tid, res } => {
                out.push(100);
                append_ip(&mut out, ip);
                append_slice(&mut out, &[49, 58, 114]);
                append_res(&mut out, res);
                append_slice(&mut out, &[49, 58, 116]);
                append_str(&mut out, tid.as_slice());
                append_slice(&mut out, &[49, 58, 121, 49, 58, 114, 101]);
            },
            KMessage::Error { ip, tid, code, message } => {
                out.push(100);
                append_slice(&mut out, &[49, 58, 101, 108]);
                append_int(&mut out, code.code() as u64);
                append_str(&mut out, message.as_slice());
                out.push(101);
                append_ip(&mut out, ip);
                append_slice(&mut out, &[49, 58, 116]);
                append_str(&mut out, tid.as_slice());
                append_slice(&mut out, &[49, 58, 121, 49, 58, 101, 101]);
            },
        }
        proof {
            assert(out@ =~= enc_msg(*msg));
        }
        out
    }

    /// Decode a datagram. Succeeds only on the canonical wire form of a
    /// message, which the result then re-encodes to, byte for byte; every
    /// other input is a protocol error. A well-formed dictionary whose
    /// keys come in another order is not canonical and is dropped too,
    /// as a decode failure.
    pub fn decode(&self, buf: &[u8]) -> (r: Result<BtDhtMessage, KError>)
        ensures
            r matches Ok(m) ==> buf@ == enc_msg(m),
            r matches Err(e) ==> e == KError::Protocol,
    {
        match parse_msg(buf) {
            Some(m) => {
                let again = self.encode(&m);
                if bytes_eq(buf, &again) {
                    Ok(m)
                } else {
                    Err(KError::Protocol)
                }
            },
            None => Err(KError::Protocol),
        }
    }
}

} // verus!
