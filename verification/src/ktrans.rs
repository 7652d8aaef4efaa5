//! The transaction multiplexer: a monotone 16-bit counter and a pool
//! mapping `(remote address, transaction id)` to the pending responder.

use vstd::prelude::*;
use vstd::arithmetic::div_mod::lemma_fundamental_div_mod;
use crate::krpc::KAddress;
use crate::krpc::KTransId;

verus! {

/// The pool key an address and a 16-bit transaction id are packed into:
/// 32 bits of address, 16 of port, 16 of id.
pub open spec fn trans_key(addr: KAddress, tid: u16) -> int {
    addr.ip * 0x100000000 + addr.port * 0x10000 + tid
}

/// Packed keys are distinct for distinct `(address, id)` pairs.
pub proof fn lemma_trans_key_injective(a1: KAddress, t1: u16, a2: KAddress, t2: u16)
    requires
        trans_key(a1, t1) == trans_key(a2, t2),
    ensures
        a1 == a2 && t1 == t2,
{
    assert(a1.ip == a2.ip && a1.port == a2.port && t1 == t2) by (nonlinear_arith)
        requires
            a1.ip * 0x100000000 + a1.port * 0x10000 + t1 == a2.ip * 0x100000000 + a2.port * 0x10000
                + t2,
            a1.ip <= 0xffffffff,
            a2.ip <= 0xffffffff,
            a1.port <= 0xffff,
            a2.port <= 0xffff,
            t1 <= 0xffff,
            t2 <= 0xffff,
    ;
}

/// Big-endian two-byte form of a 16-bit id.
pub open spec fn be16(t: u16) -> Seq<u8> {
    seq![(t / 256) as u8, (t % 256) as u8]
}

/// The id two big-endian bytes carry.
pub open spec fn be16_val(s: Seq<u8>) -> int {
    s[0] * 256 + s[1]
}

/// First pool index at or after `from` holding key `k`, or the length.
pub open spec fn find_key_idx<Data>(s: Seq<(u64, Data)>, k: int, from: int) -> int
    decreases s.len() - from,
{
    if from < 0 || from >= s.len() {
        s.len() as int
    } else if s[from].0 == k {
        from
    } else {
        find_key_idx(s, k, from + 1)
    }
}

/// The pool without its entry for key `k`, when it holds one.
pub open spec fn remove_key<Data>(s: Seq<(u64, Data)>, k: int) -> Seq<(u64, Data)> {
    if find_key_idx(s, k, 0) < s.len() {
        s.remove(find_key_idx(s, k, 0))
    } else {
        s
    }
}

/// The data the pool holds under key `k`, when any.
pub open spec fn lookup<Data>(s: Seq<(u64, Data)>, k: int) -> Option<Data> {
    if find_key_idx(s, k, 0) < s.len() {
        Some(s[find_key_idx(s, k, 0)].1)
    } else {
        None
    }
}

/// No two pool entries share a key.
pub open spec fn distinct_keys<Data>(s: Seq<(u64, Data)>) -> bool {
    forall|i: int, j: int| 0 <= i < j < s.len() ==> (#[trigger] s[i]).0 != (#[trigger] s[j]).0
}

pub proof fn lemma_find_key_char<Data>(s: Seq<(u64, Data)>, k: int, from: int)
    requires
        0 <= from <= s.len(),
    ensures
        from <= find_key_idx(s, k, from) <= s.len(),
        forall|j: int| from <= j < find_key_idx(s, k, from) ==> (#[trigger] s[j]).0 != k,
        find_key_idx(s, k, from) < s.len() ==> s[find_key_idx(s, k, from)].0 == k,
    decreases s.len() - from,
{
    if from < s.len() && s[from].0 != k {
        lemma_find_key_char(s, k, from + 1);
    }
}

/// After removal a distinct-keyed pool holds no entry for the key, and
/// the other entries keep their keys and data.
pub proof fn lemma_remove_key<Data>(s: Seq<(u64, Data)>, k: int)
    requires
        distinct_keys(s),
    ensures
        distinct_keys(remove_key(s, k)),
        forall|j: int| 0 <= j < remove_key(s, k).len() ==> (#[trigger] remove_key(s, k)[j]).0 != k,
        lookup(remove_key(s, k), k) is None,
{
    lemma_find_key_char(s, k, 0);
    let fi = find_key_idx(s, k, 0);
    let t = remove_key(s, k);
    if fi < s.len() {
        assert forall|j: int| 0 <= j < t.len() implies (#[trigger] t[j]).0 != k by {
            if j < fi {
                assert(t[j] == s[j]);
            } else {
                assert(t[j] == s[j + 1]);
            }
        }
    }
    lemma_find_key_char(t, k, 0);
    if find_key_idx(t, k, 0) < t.len() {
        assert(t[find_key_idx(t, k, 0)].0 == k);
    }
}

/// The multiplexer: the last id handed out, and the pending entries.
pub struct KTrans<Data> {
    pub last_tid: u16,
    pub pool: Vec<(u64, Data)>,
}

/// Remove and return the pool entry with key `key`, when one exists.
fn take_key<Data>(pool: &mut Vec<(u64, Data)>, key: u64) -> (r: Option<Data>)
    ensures
        final(pool)@ == remove_key(old(pool)@, key as int),
        match r {
            Some(d) => lookup(old(pool)@, key as int) == Some(d),
            None => lookup(old(pool)@, key as int) is None,
        },
{
    proof {
        lemma_find_key_char(old(pool)@, key as int, 0);
    }
    let mut i: usize = 0;
    while i < pool.len()
        invariant
            0 <= i <= pool@.len(),
            pool@ == old(pool)@,
            find_key_idx(pool@, key as int, 0) == find_key_idx(pool@, key as int, i as int),
        decreases pool@.len() - i,
    {
        if pool[i].0 == key {
            let entry = pool.remove(i);
            return Some(entry.1);
        }
        i += 1;
    }
    None
}

impl<Data> KTrans<Data> {
    /// A multiplexer with no pending transactions.
    pub fn new() -> (r: Self)
        ensures
            r.last_tid == 0,
            r.pool@.len() == 0,
            distinct_keys(r.pool@),
    {
        KTrans { last_tid: 0, pool: Vec::new() }
    }

    /// Number of pending transactions.
    pub fn active(&self) -> (r: usize)
        ensures
            r == self.pool@.len(),
    {
        self.pool.len()
    }

    /// Register a responder for a fresh transaction toward `addr`: the
    /// counter advances by one (wrapping), a colliding stale entry gives
    /// way, and the wire form of the new id is returned: two bytes,
    /// big-endian.
    pub fn start(&mut self, addr: KAddress, data: Data) -> (r: KTransId)
        requires
            distinct_keys(old(self).pool@),
        ensures
            distinct_keys(final(self).pool@),
            final(self).last_tid == (old(self).last_tid + 1) % 0x10000,
            r@ == be16(final(self).last_tid),
            final(self).pool@ == remove_key(
                old(self).pool@,
                trans_key(addr, final(self).last_tid),
            ).push((trans_key(addr, final(self).last_tid) as u64, data)),
            be16_val(r@) == final(self).last_tid,
    {
        let tid: u16 = if self.last_tid == 0xffff {
            0
        } else {
            self.last_tid + 1
        };
        self.last_tid = tid;
        let key: u64 = make_key(addr, tid);
        proof {
            lemma_remove_key(self.pool@, key as int);
        }
        let _ = take_key(&mut self.pool, key);
        self.pool.push((key, data));
        let mut r: KTransId = Vec::new();
        r.push((tid / 256) as u8);
        r.push((tid % 256) as u8);
        proof {
            assert(r@ =~= be16(tid));
            assert(distinct_keys(self.pool@)) by {
                let p = remove_key(old(self).pool@, key as int);
                assert forall|i: int, j: int|
                    0 <= i < j < p.push((key, data)).len() implies (#[trigger] p.push(
                    (key, data),
                )[i]).0 != (#[trigger] p.push((key, data))[j]).0 by {
                    if j == p.len() {
                        assert(p[i].0 != key);
                    }
                }
            }
        }
        r
    }

    /// Complete the transaction the wire id names, handing back its
    /// responder. A wire id that is not two bytes long, or an unknown
    /// pair, yields nothing and changes nothing.
    pub fn end(&mut self, addr: KAddress, tid: &KTransId) -> (r: Option<Data>)
        requires
            distinct_keys(old(self).pool@),
        ensures
            distinct_keys(final(self).pool@),
            final(self).last_tid == old(self).last_tid,
            tid@.len() != 2 ==> r is None && final(self).pool@ == old(self).pool@,
            tid@.len() == 2 ==> {
                &&& final(self).pool@ == remove_key(
                    old(self).pool@,
                    trans_key(addr, be16_val(tid@) as u16),
                )
                &&& r == lookup(old(self).pool@, trans_key(addr, be16_val(tid@) as u16))
            },
    {
        if tid.len() != 2 {
            return None;
        }
        let t: u16 = (tid[0] as u16) * 256 + (tid[1] as u16);
        let key: u64 = make_key(addr, t);
        proof {
            lemma_remove_key(self.pool@, key as int);
        }
        take_key(&mut self.pool, key)
    }
}

/// Pack an address and an id into the pool key.
fn make_key(addr: KAddress, tid: u16) -> (r: u64)
    ensures
        r as int == trans_key(addr, tid),
{
    (addr.ip as u64) * 0x100000000u64 + (addr.port as u64) * 0x10000u64 + (tid as u64)
}

/// The id handed out by the `n`-th start after the counter stood at `t0`.
pub open spec fn tid_after(t0: u16, n: nat) -> int {
    (t0 + n) % 0x10000
}

/// Ending a transaction right after starting it yields the registered
/// responder; ending it once more yields nothing.
pub proof fn lemma_end_after_start<Data>(p: Seq<(u64, Data)>, addr: KAddress, tid: u16, d: Data)
    requires
        distinct_keys(p),
    ensures
        ({
            let k = trans_key(addr, tid);
            let started = remove_key(p, k).push((k as u64, d));
            &&& lookup(started, k) == Some(d)
            &&& lookup(remove_key(started, k), k) is None
        }),
{
    let k = trans_key(addr, tid);
    lemma_remove_key(p, k);
    let q = remove_key(p, k);
    let started = q.push((k as u64, d));
    lemma_find_key_char(started, k, 0);
    let fi = find_key_idx(started, k, 0);
    assert(0 <= k < 0x10000000000000000) by (nonlinear_arith)
        requires
            k == addr.ip * 0x100000000 + addr.port * 0x10000 + tid,
            addr.ip <= 0xffffffff,
            addr.port <= 0xffff,
            tid <= 0xffff,
    ;
    assert(started[q.len() as int].0 == k);
    assert(fi < started.len());
    assert(fi == q.len()) by {
        if fi < q.len() {
            assert(started[fi] == q[fi]);
        }
    }
    assert(lookup(started, k) == Some(d));
    assert(distinct_keys(started)) by {
        assert forall|i: int, j: int|
            0 <= i < j < started.len() implies (#[trigger] started[i]).0 != (
        #[trigger] started[j]).0 by {
            if j == q.len() {
                assert(q[i].0 != k);
            }
        }
    }
    lemma_remove_key(started, k);
}

/// Two starts that happen fewer than 65536 steps apart hand out
/// distinct transaction ids.
pub proof fn lemma_distinct_tids(t0: u16, m: nat, n: nat)
    requires
        m < n,
        n - m < 0x10000,
    ensures
        tid_after(t0, m) != tid_after(t0, n),
{
    let a = t0 + m;
    let b = t0 + n;
    lemma_fundamental_div_mod(a as int, 0x10000);
    lemma_fundamental_div_mod(b as int, 0x10000);
    if tid_after(t0, m) == tid_after(t0, n) {
        let qa = a as int / 0x10000;
        let qb = b as int / 0x10000;
        assert(b - a == (qb - qa) * 0x10000) by (nonlinear_arith)
            requires
                a == 0x10000 * qa + (a as int % 0x10000),
                b == 0x10000 * qb + (b as int % 0x10000),
                a as int % 0x10000 == b as int % 0x10000,
        ;
        assert(false) by (nonlinear_arith)
            requires
                b - a == (qb - qa) * 0x10000,
                0 < b - a < 0x10000,
        ;
    }
}

} // verus!
