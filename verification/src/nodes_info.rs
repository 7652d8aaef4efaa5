//! Compact node info: 26 bytes per node, a 20-byte id followed by a
//! 6-byte big-endian IPv4 address and port.

use vstd::prelude::*;
use crate::bt_dht::BtDhtHash;
use crate::bt_dht::BtDhtNodeInfo;
use crate::bt_dht::to_bytes;
use crate::krpc::KAddress;
use crate::krpc::KError;

verus! {

/// The 6-byte compact form of an address: 4 bytes of IPv4, 2 of port,
/// big-endian.
pub open spec fn compact_addr(a: KAddress) -> Seq<u8> {
    seq![
        (a.ip / 0x1000000) as u8,
        ((a.ip / 0x10000) % 256) as u8,
        ((a.ip / 0x100) % 256) as u8,
        (a.ip % 256) as u8,
        (a.port / 256) as u8,
        (a.port % 256) as u8,
    ]
}

/// The 26-byte compact form of one node.
pub open spec fn compact_node(n: BtDhtNodeInfo) -> Seq<u8> {
    n.id@ + compact_addr(n.addr)
}

/// The compact form of a node list: the 26-byte forms, concatenated.
pub open spec fn compact_nodes(nodes: Seq<BtDhtNodeInfo>) -> Seq<u8>
    decreases nodes.len(),
{
    if nodes.len() == 0 {
        Seq::empty()
    } else {
        compact_nodes(nodes.drop_last()) + compact_node(nodes.last())
    }
}

/// The compact form grows by 26 bytes per node.
pub proof fn lemma_compact_nodes_len(nodes: Seq<BtDhtNodeInfo>)
    ensures
        compact_nodes(nodes).len() == 26 * nodes.len(),
    decreases nodes.len(),
{
    if nodes.len() > 0 {
        lemma_compact_nodes_len(nodes.drop_last());
    }
}

/// Append the 6 compact bytes of an address.
pub fn append_addr(out: &mut Vec<u8>, a: KAddress)
    ensures
        final(out)@ == old(out)@ + compact_addr(a),
{
    out.push((a.ip / 0x1000000) as u8);
    out.push(((a.ip / 0x10000) % 256) as u8);
    out.push(((a.ip / 0x100) % 256) as u8);
    out.push((a.ip % 256) as u8);
    out.push((a.port / 256) as u8);
    out.push((a.port % 256) as u8);
    proof {
        assert(out@ =~= old(out)@ + compact_addr(a));
    }
}

/// The address whose compact form is the given 6 bytes.
pub fn addr_from_bytes(b: &[u8], i: usize) -> (r: KAddress)
    requires
        i + 6 <= b@.len(),
    ensures
        compact_addr(r) == b@.subrange(i as int, i + 6),
{
    let ip: u32 = (b[i] as u32) * 0x1000000 + (b[i + 1] as u32) * 0x10000 + (b[i + 2] as u32)
        * 0x100 + (b[i + 3] as u32);
    let port: u16 = (b[i + 4] as u16) * 256 + (b[i + 5] as u16);
    let r = KAddress { ip, port };
    proof {
        let b0 = b@[i as int];
        let b1 = b@[i + 1];
        let b2 = b@[i + 2];
        let b3 = b@[i + 3];
        let b4 = b@[i + 4];
        let b5 = b@[i + 5];
        assert(ip / 0x1000000 == b0 && (ip / 0x10000) % 256 == b1 && (ip / 0x100) % 256 == b2 && ip
            % 256 == b3) by (nonlinear_arith)
            requires
                ip == b0 * 0x1000000 + b1 * 0x10000 + b2 * 0x100 + b3,
                b0 <= 255,
                b1 <= 255,
                b2 <= 255,
                b3 <= 255,
        ;
        assert(port / 256 == b4 && port % 256 == b5) by (nonlinear_arith)
            requires
                port == b4 * 256 + b5,
                b4 <= 255,
                b5 <= 255,
        ;
        assert(compact_addr(r) =~= b@.subrange(i as int, i + 6));
    }
    r
}

/// Serialize a node list to its compact wire form.
pub fn serialize(nodes_info: &Vec<BtDhtNodeInfo>) -> (r: Vec<u8>)
    ensures
        r@ == compact_nodes(nodes_info@),
{
    let mut out: Vec<u8> = Vec::new();
    let mut i: usize = 0;
    while i < nodes_info.len()
        invariant
            0 <= i <= nodes_info@.len(),
            out@ == compact_nodes(nodes_info@.subrange(0, i as int)),
        decreases nodes_info@.len() - i,
    {
        let ghost pre = nodes_info@.subrange(0, i as int);
        let ghost post = nodes_info@.subrange(0, i + 1);
        to_bytes(&mut out, &nodes_info[i].id.0);
        append_addr(&mut out, nodes_info[i].addr);
        proof {
            assert(post.drop_last() =~= pre);
            assert(post.last() == nodes_info@[i as int]);
            assert(out@ =~= compact_nodes(post));
        }
        i += 1;
    }
    proof {
        assert(nodes_info@.subrange(0, nodes_info@.len() as int) =~= nodes_info@);
    }
    out
}

/// Parse a compact node list. Succeeds exactly on buffers that are a
/// multiple of 26 bytes long, and then yields the unique list whose
/// compact form is the input.
pub fn deserialize(buf: &[u8]) -> (r: Result<Vec<BtDhtNodeInfo>, KError>)
    ensures
        r is Ok <==> buf@.len() % 26 == 0,
        r matches Ok(v) ==> compact_nodes(v@) == buf@ && 26 * v@.len() == buf@.len(),
        r matches Err(e) ==> e == KError::Protocol,
{
    let blen = buf.len();
    if blen % 26 != 0 {
        return Err(KError::Protocol);
    }
    proof {
        vstd::arithmetic::div_mod::lemma_fundamental_div_mod(blen as int, 26);
    }
    let count = blen / 26;
    let mut out: Vec<BtDhtNodeInfo> = Vec::new();
    let mut i: usize = 0;
    while i < count
        invariant
            0 <= i <= count,
            blen == buf@.len(),
            26 * count == blen,
            out@.len() == i,
            compact_nodes(out@) == buf@.subrange(0, 26 * i),
        decreases count - i,
    {
        proof {
            assert(i * 26 + 26 <= blen) by (nonlinear_arith)
                requires
                    i < count && 26 * count == blen,
            ;
        }
        let base = i * 26;
        let mut id = [0u8; 20];
        let mut k: usize = 0;
        while k < 20
            invariant
                0 <= k <= 20,
                base + 26 <= blen,
                blen == buf@.len(),
                forall|j: int| 0 <= j < k ==> id@[j] == buf@[base + j],
            decreases 20 - k,
        {
            id[k] = buf[base + k];
            k += 1;
        }
        let addr = addr_from_bytes(buf, base + 20);
        let ghost pre = out@;
        out.push(BtDhtNodeInfo { id: BtDhtHash(id), addr });
        proof {
            assert(out@.drop_last() =~= pre);
            assert(id@ =~= buf@.subrange(base as int, base + 20));
            assert(compact_node(out@.last()) =~= buf@.subrange(base as int, base + 26)) by {
                assert(compact_addr(addr) == buf@.subrange(base + 20, base + 26));
            }
            assert(compact_nodes(out@) =~= buf@.subrange(0, 26 * (i + 1))) by {
                assert(buf@.subrange(0, 26 * (i + 1)) =~= buf@.subrange(0, 26 * i as int)
                    + buf@.subrange(base as int, base + 26)) by (nonlinear_arith)
                    requires
                        base == i * 26 && base + 26 <= buf@.len(),
                ;
            }
        }
        i += 1;
    }
    proof {
        assert(buf@.subrange(0, 26 * count as int) =~= buf@);
        lemma_compact_nodes_len(out@);
    }
    Ok(out)
}

} // verus!
