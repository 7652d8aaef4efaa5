//! The DHT identifier type and the message vocabulary of the four RPCs.

use vstd::prelude::*;
use rand::Rng;
use sha1::Digest;
use crate::id::NodeId;
use crate::id::spec_equal_bits;
use crate::id::equal_bits_of;
use crate::krpc::KAddress;
use crate::krpc::KMessage;

verus! {

/// A 160-bit DHT identifier: a node id or an info-hash.
#[derive(Copy, Clone, Debug, PartialEq, Eq)]
pub struct BtDhtHash(pub [u8; 20]);

impl View for BtDhtHash {
    type V = Seq<u8>;

    open spec fn view(&self) -> Seq<u8> {
        self.0@
    }
}

/// Byte-wise XOR of two equally long byte sequences.
pub open spec fn xor_bytes(a: Seq<u8>, b: Seq<u8>) -> Seq<u8> {
    Seq::new(a.len(), |i: int| a[i] ^ b[i])
}

/// The all-zero byte sequence of length `n`.
pub open spec fn zero_bytes(n: nat) -> Seq<u8> {
    Seq::new(n, |i: int| 0u8)
}

/// Relies on rand::rng and RngCore::fill_bytes: a buffer of bytes drawn
/// from the thread-local OS-seeded generator; nothing holds of the value.
#[verifier::external_body]
fn random_bytes() -> [u8; 20] {
    let mut b = [0u8; 20];
    rand::rng().fill_bytes(&mut b);
    b
}

/// The SHA-1 digest of a 20-byte buffer; determined by the input alone.
pub uninterp spec fn sha1_of(s: Seq<u8>) -> Seq<u8>;

/// Relies on sha1::Sha1 through Digest::digest: the 20-byte
/// SHA-1 digest of the input, a function of the input alone.
#[verifier::external_body]
fn sha1_digest(b: &[u8; 20]) -> (r: [u8; 20])
    ensures
        r@ == sha1_of(b@),
{
    let out = sha1::Sha1::digest(b);
    let mut r = [0u8; 20];
    r.copy_from_slice(&out);
    r
}

impl BtDhtHash {
    /// A fresh random identifier, whitened with SHA-1: whatever the
    /// generator drew, the result is the digest of some 20-byte seed.
    pub fn new() -> (r: Self)
        ensures
            exists|seed: Seq<u8>| seed.len() == 20 && r@ == sha1_of(seed),
    {
        let seed = random_bytes();
        let r = BtDhtHash(sha1_digest(&seed));
        proof {
            assert(seed@.len() == 20 && r@ == sha1_of(seed@));
        }
        r
    }

    /// Byte-wise XOR with another identifier.
    pub fn bitxor(self, other: Self) -> (r: Self)
        ensures
            r@ == xor_bytes(self@, other@),
    {
        let mut out = [0u8; 20];
        let mut i: usize = 0;
        while i < 20
            invariant
                0 <= i <= 20,
                forall|j: int| 0 <= j < i ==> out@[j] == (self@[j] ^ other@[j]),
            decreases 20 - i,
        {
            out[i] = self.0[i] ^ other.0[i];
            i += 1;
        }
        proof {
            assert(out@ =~= xor_bytes(self@, other@));
        }
        BtDhtHash(out)
    }

    /// Whether two identifiers hold the same bytes.
    pub fn same(&self, other: &Self) -> (r: bool)
        ensures
            r <==> self@ == other@,
    {
        let mut i: usize = 0;
        while i < 20
            invariant
                0 <= i <= 20,
                forall|j: int| 0 <= j < i ==> self@[j] == other@[j],
            decreases 20 - i,
        {
            if self.0[i] != other.0[i] {
                return false;
            }
            i += 1;
        }
        proof {
            assert(self@ =~= other@);
        }
        true
    }
}

impl core::convert::From<[u8; 20]> for BtDhtHash {
    /// The identifier holding exactly the given bytes.
    fn from(v: [u8; 20]) -> (r: Self) {
        BtDhtHash(v)
    }
}

impl vstd::std_specs::convert::FromSpecImpl<[u8; 20]> for BtDhtHash {
    open spec fn obeys_from_spec() -> bool {
        true
    }

    open spec fn from_spec(v: [u8; 20]) -> Self {
        BtDhtHash(v)
    }
}

impl core::default::Default for BtDhtHash {
    /// The all-zero identifier.
    fn default() -> (r: Self)
        ensures
            r@ == zero_bytes(20),
    {
        let z = [0u8; 20];
        proof {
            assert(z@ =~= zero_bytes(20));
        }
        BtDhtHash(z)
    }
}

impl NodeId for BtDhtHash {
    open spec fn id_view(&self) -> Seq<u8> {
        self.0@
    }

    fn equal_bits(&self, other: &Self) -> (r: usize) {
        equal_bits_of(&self.0, &other.0)
    }
}

proof fn lemma_u8_xor_self(x: u8)
    ensures
        x ^ x == 0,
{
    assert(x ^ x == 0) by (bit_vector);
}

proof fn lemma_u8_xor_zero(x: u8)
    ensures
        x ^ 0 == x,
{
    assert(x ^ 0 == x) by (bit_vector);
}

proof fn lemma_u8_xor_comm(x: u8, y: u8)
    ensures
        x ^ y == y ^ x,
{
    assert(x ^ y == y ^ x) by (bit_vector);
}

proof fn lemma_u8_xor_assoc(x: u8, y: u8, z: u8)
    ensures
        (x ^ y) ^ z == x ^ (y ^ z),
{
    assert((x ^ y) ^ z == x ^ (y ^ z)) by (bit_vector);
}

/// XOR of an identifier with itself is the zero identifier.
pub proof fn lemma_xor_self(a: Seq<u8>)
    ensures
        xor_bytes(a, a) == zero_bytes(a.len()),
{
    assert forall|i: int| 0 <= i < a.len() implies xor_bytes(a, a)[i] == 0u8 by {
        lemma_u8_xor_self(a[i]);
    }
    assert(xor_bytes(a, a) =~= zero_bytes(a.len()));
}

/// XOR with the zero identifier changes nothing.
pub proof fn lemma_xor_zero(a: Seq<u8>)
    ensures
        xor_bytes(a, zero_bytes(a.len())) == a,
{
    assert forall|i: int| 0 <= i < a.len() implies xor_bytes(a, zero_bytes(a.len()))[i] == a[i] by {
        lemma_u8_xor_zero(a[i]);
    }
    assert(xor_bytes(a, zero_bytes(a.len())) =~= a);
}

/// XOR of identifiers is commutative.
pub proof fn lemma_xor_comm(a: Seq<u8>, b: Seq<u8>)
    requires
        a.len() == b.len(),
    ensures
        xor_bytes(a, b) == xor_bytes(b, a),
{
    assert forall|i: int| 0 <= i < a.len() implies xor_bytes(a, b)[i] == xor_bytes(b, a)[i] by {
        lemma_u8_xor_comm(a[i], b[i]);
    }
    assert(xor_bytes(a, b) =~= xor_bytes(b, a));
}

/// XOR of identifiers is associative.
pub proof fn lemma_xor_assoc(a: Seq<u8>, b: Seq<u8>, c: Seq<u8>)
    requires
        a.len() == b.len(),
        b.len() == c.len(),
    ensures
        xor_bytes(xor_bytes(a, b), c) == xor_bytes(a, xor_bytes(b, c)),
{
    assert forall|i: int| 0 <= i < a.len() implies xor_bytes(xor_bytes(a, b), c)[i] == xor_bytes(
        a,
        xor_bytes(b, c),
    )[i] by {
        lemma_u8_xor_assoc(a[i], b[i], c[i]);
    }
    assert(xor_bytes(xor_bytes(a, b), c) =~= xor_bytes(a, xor_bytes(b, c)));
}

/// Append the 20 bytes of a hash to a buffer.
pub fn to_bytes(buf: &mut Vec<u8>, hash: &[u8; 20])
    ensures
        final(buf)@ == old(buf)@ + hash@,
{
    let mut i: usize = 0;
    while i < 20
        invariant
            0 <= i <= 20,
            buf@ == old(buf)@ + hash@.subrange(0, i as int),
        decreases 20 - i,
    {
        buf.push(hash[i]);
        proof {
            assert(buf@ =~= old(buf)@ + hash@.subrange(0, i + 1));
        }
        i += 1;
    }
    proof {
        assert(buf@ =~= old(buf)@ + hash@);
    }
}

/// Read a hash back from a buffer; succeeds exactly on 20-byte input.
pub fn from_bytes(buf: &[u8]) -> (r: Result<[u8; 20], ()>)
    ensures
        buf@.len() == 20 <==> r is Ok,
        r matches Ok(h) ==> h@ == buf@,
{
    if buf.len() != 20 {
        return Err(());
    }
    let mut hash = [0u8; 20];
    let mut i: usize = 0;
    while i < 20
        invariant
            0 <= i <= 20,
            buf@.len() == 20,
            forall|j: int| 0 <= j < i ==> hash@[j] == buf@[j],
        decreases 20 - i,
    {
        hash[i] = buf[i];
        i += 1;
    }
    proof {
        assert(hash@ =~= buf@);
    }
    Ok(hash)
}

/// The bencode string form of a hash: the length prefix `20:` and the bytes.
pub fn serialize(hash: &[u8; 20]) -> (r: Vec<u8>)
    ensures
        r@ == seq![50u8, 48u8, 58u8] + hash@,
{
    let mut out: Vec<u8> = Vec::new();
    out.push(50);
    out.push(48);
    out.push(58);
    to_bytes(&mut out, hash);
    proof {
        assert(out@ =~= seq![50u8, 48u8, 58u8] + hash@);
    }
    out
}

/// The token a peer hands out with get_peers responses.
pub type BtDhtToken = Vec<u8>;

/// The four query methods of the protocol.
#[derive(Copy, Clone, Debug, PartialEq, Eq, Structural)]
pub enum BtDhtQuery {
    Ping,
    FindNode,
    GetPeers,
    AnnouncePeer,
}

/// Argument dictionary of a query, discriminated by its key set.
#[derive(Debug, Clone, PartialEq, Eq)]
pub enum BtDhtArg {
    AnnouncePeer { id: BtDhtHash, implied_port: bool, info_hash: BtDhtHash, port: u16, token: BtDhtToken },
    GetPeers { id: BtDhtHash, info_hash: BtDhtHash },
    FindNode { id: BtDhtHash, target: BtDhtHash },
    Ping { id: BtDhtHash },
}

/// Response dictionary, discriminated by its key set.
#[derive(Debug, Clone, PartialEq, Eq)]
pub enum BtDhtRes {
    GetPeersNodes { id: BtDhtHash, token: BtDhtToken, nodes: Vec<BtDhtNodeInfo> },
    GetPeersValues { id: BtDhtHash, token: BtDhtToken, values: Vec<BtDhtPeerInfo> },
    FindNode { id: BtDhtHash, nodes: Vec<BtDhtNodeInfo> },
    Pong { id: BtDhtHash },
}

/// A node as carried in compact node info: id and address.
#[derive(Copy, Clone, Debug, PartialEq, Eq)]
pub struct BtDhtNodeInfo {
    pub id: BtDhtHash,
    pub addr: KAddress,
}

/// A peer as carried in a get_peers values list.
#[derive(Copy, Clone, Debug, PartialEq, Eq, Structural)]
pub struct BtDhtPeerInfo {
    pub addr: KAddress,
}

/// The concrete message type of this DHT.
pub type BtDhtMessage = KMessage<BtDhtQuery, BtDhtArg, BtDhtRes>;

} // verus!
