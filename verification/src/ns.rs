//! Bootstrap entry handling: classify `host`, `host:port` and
//! `ipv4:port` strings before any name resolution happens.

use vstd::prelude::*;
use crate::kcodec::append_dec;
use crate::kcodec::dec_rep;
use crate::krpc::KAddress;

verus! {

/// The port used when an entry names none.
pub const DEFAULT_PORT: u16 = 6881;

/// Why a bootstrap entry yields no address.
#[derive(Debug, Clone, PartialEq, Eq)]
pub enum ResolveError {
    /// The entry has more than one colon.
    InvalidAddr(Vec<u8>),
    /// The text after the colon is not a port number.
    InvalidPort(Vec<u8>),
    /// The resolver found no address for the host.
    Unresolved(Vec<u8>),
}

/// What one entry asks for: a literal address, or a host to resolve
/// together with the port to use.
#[derive(Debug, Clone, PartialEq, Eq)]
pub enum HostPort {
    Addr(KAddress),
    Lookup(Vec<u8>, u16),
}

/// The canonical text of an IPv4 socket address: four decimal octets
/// joined by dots, a colon, and the decimal port.
pub open spec fn addr_literal(a: KAddress) -> Seq<u8> {
    dec_rep(a.ip as int / 0x1000000) + seq![46u8] + dec_rep((a.ip as int / 0x10000) % 256) + seq![
        46u8,
    ] + dec_rep((a.ip as int / 0x100) % 256) + seq![46u8] + dec_rep(a.ip as int % 256) + seq![58u8]
        + dec_rep(a.port as int)
}

/// Every byte is a decimal digit, and there is at least one.
pub open spec fn all_digits(s: Seq<u8>) -> bool {
    s.len() > 0 && forall|k: int| 0 <= k < s.len() ==> 48 <= #[trigger] s[k] <= 57
}

/// The number a digit string stands for.
pub open spec fn dec_val(s: Seq<u8>) -> int
    decreases s.len(),
{
    if s.len() == 0 {
        0
    } else {
        dec_val(s.drop_last()) * 10 + (s.last() - 48)
    }
}

/// Extending a digit string multiplies its value up: the value of a
/// prefix never exceeds the value of the whole.
pub proof fn lemma_dec_val_prefix(s: Seq<u8>, k: int)
    requires
        0 <= k <= s.len(),
        forall|j: int| 0 <= j < s.len() ==> 48 <= #[trigger] s[j] <= 57,
    ensures
        dec_val(s.subrange(0, k)) <= dec_val(s),
        dec_val(s) >= 0,
    decreases s.len() - k,
{
    if k < s.len() {
        lemma_dec_val_prefix(s, k + 1);
        let p = s.subrange(0, k);
        let q = s.subrange(0, k + 1);
        assert(q.drop_last() =~= p);
        assert(dec_val(p) >= 0) by {
            lemma_dec_val_nonneg(p);
        }
        assert(dec_val(p) <= dec_val(q)) by (nonlinear_arith)
            requires
                dec_val(q) == dec_val(p) * 10 + (q.last() - 48),
                dec_val(p) >= 0,
                48 <= q.last() <= 57,
        ;
    } else {
        assert(s.subrange(0, k) =~= s);
        lemma_dec_val_nonneg(s);
    }
}

/// The decimal form of a number holds at least one byte, each a digit.
proof fn lemma_dec_rep_digits(n: int)
    requires
        n >= 0,
    ensures
        dec_rep(n).len() >= 1,
        forall|k: int| 0 <= k < dec_rep(n).len() ==> 48 <= #[trigger] dec_rep(n)[k] <= 57,
    decreases n,
{
    if n >= 10 {
        lemma_dec_rep_digits(n / 10);
    }
}

/// Reading the decimal form back yields the number.
proof fn lemma_dec_rep_val(n: int)
    requires
        n >= 0,
    ensures
        dec_val(dec_rep(n)) == n,
    decreases n,
{
    if n < 10 {
        assert(dec_rep(n) =~= seq![(48 + n) as u8]);
        assert(dec_rep(n).drop_last() =~= Seq::<u8>::empty());
        assert(dec_rep(n).last() == (48 + n) as u8);
        assert((48 + n) as u8 == 48 + n);
        assert(dec_val(Seq::<u8>::empty()) == 0);
        assert(dec_val(dec_rep(n)) == dec_val(dec_rep(n).drop_last()) * 10 + (dec_rep(n).last()
            - 48));
    } else {
        lemma_dec_rep_val(n / 10);
        assert(dec_rep(n).drop_last() =~= dec_rep(n / 10));
        assert(dec_rep(n).last() == (48 + n % 10) as u8);
        assert((48 + n % 10) as u8 == 48 + n % 10);
        assert(dec_val(dec_rep(n)) == dec_val(dec_rep(n).drop_last()) * 10 + (dec_rep(n).last()
            - 48));
        assert(n / 10 * 10 + n % 10 == n) by (nonlinear_arith);
    }
}

/// Any prefix of the decimal form reads back as at most the number.
proof fn lemma_dec_rep_prefix_le(n: int, k: int)
    requires
        n >= 0,
        0 <= k <= dec_rep(n).len(),
    ensures
        dec_val(dec_rep(n).subrange(0, k)) <= n,
    decreases n,
{
    if k == dec_rep(n).len() {
        assert(dec_rep(n).subrange(0, k) =~= dec_rep(n));
        lemma_dec_rep_val(n);
    } else if n < 10 {
        assert(dec_rep(n).subrange(0, k) =~= Seq::<u8>::empty());
    } else {
        assert(dec_rep(n).subrange(0, k) =~= dec_rep(n / 10).subrange(0, k));
        lemma_dec_rep_prefix_le(n / 10, k);
    }
}

proof fn lemma_dec_val_nonneg(s: Seq<u8>)
    requires
        forall|j: int| 0 <= j < s.len() ==> 48 <= #[trigger] s[j] <= 57,
    ensures
        dec_val(s) >= 0,
    decreases s.len(),
{
    if s.len() > 0 {
        lemma_dec_val_nonneg(s.drop_last());
    }
}

/// Parse a digit string as a port number: its value, when every byte is
/// a digit and the value fits a port.
fn parse_port(s: &[u8], from: usize) -> (r: Option<u16>)
    requires
        from <= s@.len(),
    ensures
        match r {
            Some(p) => all_digits(s@.subrange(from as int, s@.len() as int)) && dec_val(
                s@.subrange(from as int, s@.len() as int),
            ) == p,
            None => !all_digits(s@.subrange(from as int, s@.len() as int)) || dec_val(
                s@.subrange(from as int, s@.len() as int),
            ) > 0xffff,
        },
{
    let n = s.len();
    let ghost whole = s@.subrange(from as int, n as int);
    if from == n {
        return None;
    }
    let mut acc: u32 = 0;
    let mut j: usize = from;
    while j < n
        invariant
            from <= j <= n,
            n == s@.len(),
            whole == s@.subrange(from as int, n as int),
            acc <= 0xffff,
            forall|k: int| from <= k < j ==> 48 <= #[trigger] s@[k] <= 57,
            acc == dec_val(s@.subrange(from as int, j as int)),
        decreases n - j,
    {
        let c = s[j];
        if c < 48 || c > 57 {
            proof {
                assert(whole[j - from] == s@[j as int]);
            }
            return None;
        }
        let ghost pre = s@.subrange(from as int, j as int);
        let ghost post = s@.subrange(from as int, j + 1);
        proof {
            assert(post.drop_last() =~= pre);
            assert(post.last() == s@[j as int]);
        }
        let acc2: u32 = acc * 10 + ((c - 48) as u32);
        if acc2 > 0xffff {
            proof {
                if all_digits(whole) {
                    lemma_dec_val_prefix(whole, j + 1 - from);
                    assert(whole.subrange(0, j + 1 - from) =~= post);
                }
            }
            return None;
        }
        acc = acc2;
        j += 1;
    }
    proof {
        assert(s@.subrange(from as int, n as int) =~= whole);
        assert forall|k: int| 0 <= k < whole.len() implies 48 <= #[trigger] whole[k] <= 57 by {
            assert(whole[k] == s@[from + k]);
        }
    }
    Some(acc as u16)
}

/// The index of the first colon at or after `from`, or the length.
fn find_colon(s: &[u8], from: usize) -> (r: usize)
    requires
        from <= s@.len(),
    ensures
        from <= r <= s@.len(),
        forall|k: int| from <= k < r ==> s@[k] != 58,
        r < s@.len() ==> s@[r as int] == 58,
{
    let n = s.len();
    let mut j: usize = from;
    while j < n
        invariant
            from <= j <= n,
            n == s@.len(),
            forall|k: int| from <= k < j ==> s@[k] != 58,
        decreases n - j,
    {
        if s[j] == 58 {
            return j;
        }
        j += 1;
    }
    n
}

/// Copy a byte range into a fresh vector.
fn copy_range(s: &[u8], from: usize, to: usize) -> (r: Vec<u8>)
    requires
        from <= to <= s@.len(),
    ensures
        r@ == s@.subrange(from as int, to as int),
{
    let mut out: Vec<u8> = Vec::new();
    let mut j: usize = from;
    while j < to
        invariant
            from <= j <= to <= s@.len(),
            out@ == s@.subrange(from as int, j as int),
        decreases to - j,
    {
        out.push(s[j]);
        proof {
            assert(out@ =~= s@.subrange(from as int, j + 1));
        }
        j += 1;
    }
    out
}

/// Parse one number: digits up to the next dot or colon. Any run that is
/// the decimal form of a value that fits a port is read back exactly.
fn parse_u32_digits(s: &[u8], from: usize) -> (r: Option<(u32, usize)>)
    requires
        from <= s@.len(),
    ensures
        r matches Some(p) ==> from < p.1 <= s@.len(),
        forall|v: u32, j2: int|
            v <= 0xffff && from + dec_rep(v as int).len() == j2 && j2 <= s@.len()
                && s@.subrange(from as int, j2) == dec_rep(v as int) && (j2 == s@.len() || !(48
                <= s@[j2] <= 57)) ==> r == Some((v, j2 as usize)),
{
    let n = s.len();
    let mut acc: u32 = 0;
    let mut j: usize = from;
    while j < n && 48 <= s[j] && s[j] <= 57
        invariant
            from <= j <= n,
            n == s@.len(),
            forall|k: int| from <= k < j ==> 48 <= #[trigger] s@[k] <= 57,
            acc == dec_val(s@.subrange(from as int, j as int)),
        decreases n - j,
    {
        if acc > 0xffff {
            proof {
                assert forall|v: u32, j2: int|
                    v <= 0xffff && from + dec_rep(v as int).len() == j2 && j2 <= s@.len()
                        && s@.subrange(from as int, j2) == dec_rep(v as int) && (j2 == s@.len()
                        || !(48 <= s@[j2] <= 57)) implies false by {
                    lemma_dec_rep_digits(v as int);
                    assert(j < j2) by {
                        if j2 <= j as int {
                            assert(48 <= s@[j2] <= 57);
                        }
                    }
                    assert(s@.subrange(from as int, j as int) =~= dec_rep(v as int).subrange(
                        0,
                        j - from,
                    ));
                    lemma_dec_rep_prefix_le(v as int, j - from);
                }
            }
            return None;
        }
        let ghost pre = s@.subrange(from as int, j as int);
        let ghost post = s@.subrange(from as int, j + 1);
        proof {
            assert(post.drop_last() =~= pre);
            assert(post.last() == s@[j as int]);
        }
        acc = acc * 10 + ((s[j] - 48) as u32);
        j += 1;
    }
    if j == from {
        proof {
            assert forall|v: u32, j2: int|
                v <= 0xffff && from + dec_rep(v as int).len() == j2 && j2 <= s@.len()
                    && s@.subrange(from as int, j2) == dec_rep(v as int) && (j2 == s@.len() || !(
                48 <= s@[j2] <= 57)) implies false by {
                lemma_dec_rep_digits(v as int);
                assert(s@[from as int] == dec_rep(v as int)[0]);
            }
        }
        None
    } else {
        proof {
            assert forall|v: u32, j2: int|
                v <= 0xffff && from + dec_rep(v as int).len() == j2 && j2 <= s@.len()
                    && s@.subrange(from as int, j2) == dec_rep(v as int) && (j2 == s@.len() || !(
                48 <= s@[j2] <= 57)) implies acc == v && j == j2 by {
                lemma_dec_rep_digits(v as int);
                assert(j == j2) by {
                    if (j as int) < j2 {
                        assert(s@[j as int] == dec_rep(v as int)[j - from]);
                    }
                    if j2 < j as int {
                        assert(48 <= s@[j2] <= 57);
                    }
                }
                assert(s@.subrange(from as int, j as int) =~= dec_rep(v as int));
                lemma_dec_rep_val(v as int);
            }
        }
        Some((acc, j))
    }
}

/// The four octets of an address as the literal writes them.
spec fn lit_o1(a: KAddress) -> int {
    a.ip as int / 0x1000000
}

spec fn lit_o2(a: KAddress) -> int {
    (a.ip as int / 0x10000) % 256
}

spec fn lit_o3(a: KAddress) -> int {
    (a.ip as int / 0x100) % 256
}

spec fn lit_o4(a: KAddress) -> int {
    a.ip as int % 256
}

/// The positions of the three dots and the colon inside the literal, and
/// its total length.
spec fn lit_p1(a: KAddress) -> int {
    dec_rep(lit_o1(a)).len() as int
}

spec fn lit_p2(a: KAddress) -> int {
    lit_p1(a) + 1 + dec_rep(lit_o2(a)).len()
}

spec fn lit_p3(a: KAddress) -> int {
    lit_p2(a) + 1 + dec_rep(lit_o3(a)).len()
}

spec fn lit_p4(a: KAddress) -> int {
    lit_p3(a) + 1 + dec_rep(lit_o4(a)).len()
}

spec fn lit_end(a: KAddress) -> int {
    lit_p4(a) + 1 + dec_rep(a.port as int).len()
}

/// How the canonical literal decomposes: each octet's digits, then a dot
/// or the colon, then the port's digits reaching the end.
proof fn lemma_lit_steps(e: Seq<u8>, a: KAddress)
    requires
        e == addr_literal(a),
    ensures
        0 <= lit_o1(a) <= 255,
        0 <= lit_o2(a) <= 255,
        0 <= lit_o3(a) <= 255,
        0 <= lit_o4(a) <= 255,
        e.len() == lit_end(a),
        e.subrange(0, lit_p1(a)) == dec_rep(lit_o1(a)),
        lit_p1(a) < e.len() && e[lit_p1(a)] == 46,
        e.subrange(lit_p1(a) + 1, lit_p2(a)) == dec_rep(lit_o2(a)),
        lit_p2(a) < e.len() && e[lit_p2(a)] == 46,
        e.subrange(lit_p2(a) + 1, lit_p3(a)) == dec_rep(lit_o3(a)),
        lit_p3(a) < e.len() && e[lit_p3(a)] == 46,
        e.subrange(lit_p3(a) + 1, lit_p4(a)) == dec_rep(lit_o4(a)),
        lit_p4(a) < e.len() && e[lit_p4(a)] == 58,
        e.subrange(lit_p4(a) + 1, lit_end(a)) == dec_rep(a.port as int),
{
    lemma_dec_rep_digits(lit_o1(a));
    lemma_dec_rep_digits(lit_o2(a));
    lemma_dec_rep_digits(lit_o3(a));
    lemma_dec_rep_digits(lit_o4(a));
    lemma_dec_rep_digits(a.port as int);
    assert(e.subrange(0, lit_p1(a)) =~= dec_rep(lit_o1(a)));
    assert(e.subrange(lit_p1(a) + 1, lit_p2(a)) =~= dec_rep(lit_o2(a)));
    assert(e.subrange(lit_p2(a) + 1, lit_p3(a)) =~= dec_rep(lit_o3(a)));
    assert(e.subrange(lit_p3(a) + 1, lit_p4(a)) =~= dec_rep(lit_o4(a)));
    assert(e.subrange(lit_p4(a) + 1, lit_end(a)) =~= dec_rep(a.port as int));
}

/// Splitting an address into its four octets loses nothing.
proof fn lemma_ip_recompose(ip: u32)
    ensures
        (ip as int / 0x1000000) * 0x1000000 + ((ip as int / 0x10000) % 256) * 0x10000 + ((
        ip as int / 0x100) % 256) * 0x100 + (ip as int % 256) == ip,
{
    assert((ip as int / 0x1000000) * 0x1000000 + ((ip as int / 0x10000) % 256) * 0x10000 + ((
    ip as int / 0x100) % 256) * 0x100 + (ip as int % 256) == ip) by (nonlinear_arith)
        requires
            ip <= 0xffffffff,
    ;
}

/// Try to read the entry as a literal `a.b.c.d:port` address, in
/// canonical form: the result re-encodes to the entry, byte for byte,
/// and every canonical literal is read.
#[verifier::rlimit(100)]
fn parse_addr_literal(entry: &[u8]) -> (r: Option<KAddress>)
    ensures
        r matches Some(a) ==> entry@ == addr_literal(a),
        forall|a: KAddress| entry@ == addr_literal(a) ==> r is Some,
{
    let n = entry.len();
    let (o1, j1x) = match parse_u32_digits(entry, 0) {
        Some(p) => p,
        None => {
        proof {
            assert forall|a0: KAddress| entry@ == addr_literal(a0) implies false by {
                lemma_lit_steps(entry@, a0);
                let v1: u32 = (lit_o1(a0)) as u32;
                assert(v1 as int == lit_o1(a0));
                assert((0) + dec_rep(v1 as int).len() == lit_p1(a0));
                assert(entry@.subrange(0, lit_p1(a0)) == dec_rep(v1 as int));
                assert(!(48 <= entry@[lit_p1(a0)] <= 57));
            }
        }
            return None;
        },
    };
    let j1 = match expect_dot(entry, j1x) {
        Some(j) => j,
        None => {
        proof {
            assert forall|a0: KAddress| entry@ == addr_literal(a0) implies false by {
                lemma_lit_steps(entry@, a0);
                let v1: u32 = (lit_o1(a0)) as u32;
                assert(v1 as int == lit_o1(a0));
                assert((0) + dec_rep(v1 as int).len() == lit_p1(a0));
                assert(entry@.subrange(0, lit_p1(a0)) == dec_rep(v1 as int));
                assert(!(48 <= entry@[lit_p1(a0)] <= 57));
                assert(o1 == v1 && j1x as int == lit_p1(a0));
                assert((j1x as int) < entry@.len() && entry@[j1x as int] == 46);
            }
        }
            return None;
        },
    };
    let (o2, j2x) = match parse_u32_digits(entry, j1) {
        Some(p) => p,
        None => {
        proof {
            assert forall|a0: KAddress| entry@ == addr_literal(a0) implies false by {
                lemma_lit_steps(entry@, a0);
                let v1: u32 = (lit_o1(a0)) as u32;
                assert(v1 as int == lit_o1(a0));
                assert((0) + dec_rep(v1 as int).len() == lit_p1(a0));
                assert(entry@.subrange(0, lit_p1(a0)) == dec_rep(v1 as int));
                assert(!(48 <= entry@[lit_p1(a0)] <= 57));
                assert(o1 == v1 && j1x as int == lit_p1(a0));
                assert((j1x as int) < entry@.len() && entry@[j1x as int] == 46);
                assert(j1 as int == lit_p1(a0) + 1);
                let v2: u32 = (lit_o2(a0)) as u32;
                assert(v2 as int == lit_o2(a0));
                assert((j1 as int) + dec_rep(v2 as int).len() == lit_p2(a0));
                assert(entry@.subrange(j1 as int, lit_p2(a0)) == dec_rep(v2 as int));
                assert(!(48 <= entry@[lit_p2(a0)] <= 57));
            }
        }
            return None;
        },
    };
    let j2 = match expect_dot(entry, j2x) {
        Some(j) => j,
        None => {
        proof {
            assert forall|a0: KAddress| entry@ == addr_literal(a0) implies false by {
                lemma_lit_steps(entry@, a0);
                let v1: u32 = (lit_o1(a0)) as u32;
                assert(v1 as int == lit_o1(a0));
                assert((0) + dec_rep(v1 as int).len() == lit_p1(a0));
                assert(entry@.subrange(0, lit_p1(a0)) == dec_rep(v1 as int));
                assert(!(48 <= entry@[lit_p1(a0)] <= 57));
                assert(o1 == v1 && j1x as int == lit_p1(a0));
                assert((j1x as int) < entry@.len() && entry@[j1x as int] == 46);
                assert(j1 as int == lit_p1(a0) + 1);
                let v2: u32 = (lit_o2(a0)) as u32;
                assert(v2 as int == lit_o2(a0));
                assert((j1 as int) + dec_rep(v2 as int).len() == lit_p2(a0));
                assert(entry@.subrange(j1 as int, lit_p2(a0)) == dec_rep(v2 as int));
                assert(!(48 <= entry@[lit_p2(a0)] <= 57));
                assert(o2 == v2 && j2x as int == lit_p2(a0));
                assert((j2x as int) < entry@.len() && entry@[j2x as int] == 46);
            }
        }
            return None;
        },
    };
    let (o3, j3x) = match parse_u32_digits(entry, j2) {
        Some(p) => p,
        None => {
        proof {
            assert forall|a0: KAddress| entry@ == addr_literal(a0) implies false by {
                lemma_lit_steps(entry@, a0);
                let v1: u32 = (lit_o1(a0)) as u32;
                assert(v1 as int == lit_o1(a0));
                assert((0) + dec_rep(v1 as int).len() == lit_p1(a0));
                assert(entry@.subrange(0, lit_p1(a0)) == dec_rep(v1 as int));
                assert(!(48 <= entry@[lit_p1(a0)] <= 57));
                assert(o1 == v1 && j1x as int == lit_p1(a0));
                assert((j1x as int) < entry@.len() && entry@[j1x as int] == 46);
                assert(j1 as int == lit_p1(a0) + 1);
                let v2: u32 = (lit_o2(a0)) as u32;
                assert(v2 as int == lit_o2(a0));
                assert((j1 as int) + dec_rep(v2 as int).len() == lit_p2(a0));
                assert(entry@.subrange(j1 as int, lit_p2(a0)) == dec_rep(v2 as int));
                assert(!(48 <= entry@[lit_p2(a0)] <= 57));
                assert(o2 == v2 && j2x as int == lit_p2(a0));
                assert((j2x as int) < entry@.len() && entry@[j2x as int] == 46);
                assert(j2 as int == lit_p2(a0) + 1);
                let v3: u32 = (lit_o3(a0)) as u32;
                assert(v3 as int == lit_o3(a0));
                assert((j2 as int) + dec_rep(v3 as int).len() == lit_p3(a0));
                assert(entry@.subrange(j2 as int, lit_p3(a0)) == dec_rep(v3 as int));
                assert(!(48 <= entry@[lit_p3(a0)] <= 57));
            }
        }
            return None;
        },
    };
    let j3 = match expect_dot(entry, j3x) {
        Some(j) => j,
        None => {
        proof {
            assert forall|a0: KAddress| entry@ == addr_literal(a0) implies false by {
                lemma_lit_steps(entry@, a0);
                let v1: u32 = (lit_o1(a0)) as u32;
                assert(v1 as int == lit_o1(a0));
                assert((0) + dec_rep(v1 as int).len() == lit_p1(a0));
                assert(entry@.subrange(0, lit_p1(a0)) == dec_rep(v1 as int));
                assert(!(48 <= entry@[lit_p1(a0)] <= 57));
                assert(o1 == v1 && j1x as int == lit_p1(a0));
                assert((j1x as int) < entry@.len() && entry@[j1x as int] == 46);
                assert(j1 as int == lit_p1(a0) + 1);
                let v2: u32 = (lit_o2(a0)) as u32;
                assert(v2 as int == lit_o2(a0));
                assert((j1 as int) + dec_rep(v2 as int).len() == lit_p2(a0));
                assert(entry@.subrange(j1 as int, lit_p2(a0)) == dec_rep(v2 as int));
                assert(!(48 <= entry@[lit_p2(a0)] <= 57));
                assert(o2 == v2 && j2x as int == lit_p2(a0));
                assert((j2x as int) < entry@.len() && entry@[j2x as int] == 46);
                assert(j2 as int == lit_p2(a0) + 1);
                let v3: u32 = (lit_o3(a0)) as u32;
                assert(v3 as int == lit_o3(a0));
                assert((j2 as int) + dec_rep(v3 as int).len() == lit_p3(a0));
                assert(entry@.subrange(j2 as int, lit_p3(a0)) == dec_rep(v3 as int));
                assert(!(48 <= entry@[lit_p3(a0)] <= 57));
                assert(o3 == v3 && j3x as int == lit_p3(a0));
                assert((j3x as int) < entry@.len() && entry@[j3x as int] == 46);
            }
        }
            return None;
        },
    };
    let (o4, j4) = match parse_u32_digits(entry, j3) {
        Some(p) => p,
        None => {
        proof {
            assert forall|a0: KAddress| entry@ == addr_literal(a0) implies false by {
                lemma_lit_steps(entry@, a0);
                let v1: u32 = (lit_o1(a0)) as u32;
                assert(v1 as int == lit_o1(a0));
                assert((0) + dec_rep(v1 as int).len() == lit_p1(a0));
                assert(entry@.subrange(0, lit_p1(a0)) == dec_rep(v1 as int));
                assert(!(48 <= entry@[lit_p1(a0)] <= 57));
                assert(o1 == v1 && j1x as int == lit_p1(a0));
                assert((j1x as int) < entry@.len() && entry@[j1x as int] == 46);
                assert(j1 as int == lit_p1(a0) + 1);
                let v2: u32 = (lit_o2(a0)) as u32;
                assert(v2 as int == lit_o2(a0));
                assert((j1 as int) + dec_rep(v2 as int).len() == lit_p2(a0));
                assert(entry@.subrange(j1 as int, lit_p2(a0)) == dec_rep(v2 as int));
                assert(!(48 <= entry@[lit_p2(a0)] <= 57));
                assert(o2 == v2 && j2x as int == lit_p2(a0));
                assert((j2x as int) < entry@.len() && entry@[j2x as int] == 46);
                assert(j2 as int == lit_p2(a0) + 1);
                let v3: u32 = (lit_o3(a0)) as u32;
                assert(v3 as int == lit_o3(a0));
                assert((j2 as int) + dec_rep(v3 as int).len() == lit_p3(a0));
                assert(entry@.subrange(j2 as int, lit_p3(a0)) == dec_rep(v3 as int));
                assert(!(48 <= entry@[lit_p3(a0)] <= 57));
                assert(o3 == v3 && j3x as int == lit_p3(a0));
                assert((j3x as int) < entry@.len() && entry@[j3x as int] == 46);
                assert(j3 as int == lit_p3(a0) + 1);
                let v4: u32 = (lit_o4(a0)) as u32;
                assert(v4 as int == lit_o4(a0));
                assert((j3 as int) + dec_rep(v4 as int).len() == lit_p4(a0));
                assert(entry@.subrange(j3 as int, lit_p4(a0)) == dec_rep(v4 as int));
                assert(!(48 <= entry@[lit_p4(a0)] <= 57));
            }
        }
            return None;
        },
    };
    if j4 >= n || entry[j4] != 58 {
        proof {
            assert forall|a0: KAddress| entry@ == addr_literal(a0) implies false by {
                lemma_lit_steps(entry@, a0);
                let v1: u32 = (lit_o1(a0)) as u32;
                assert(v1 as int == lit_o1(a0));
                assert((0) + dec_rep(v1 as int).len() == lit_p1(a0));
                assert(entry@.subrange(0, lit_p1(a0)) == dec_rep(v1 as int));
                assert(!(48 <= entry@[lit_p1(a0)] <= 57));
                assert(o1 == v1 && j1x as int == lit_p1(a0));
                assert((j1x as int) < entry@.len() && entry@[j1x as int] == 46);
                assert(j1 as int == lit_p1(a0) + 1);
                let v2: u32 = (lit_o2(a0)) as u32;
                assert(v2 as int == lit_o2(a0));
                assert((j1 as int) + dec_rep(v2 as int).len() == lit_p2(a0));
                assert(entry@.subrange(j1 as int, lit_p2(a0)) == dec_rep(v2 as int));
                assert(!(48 <= entry@[lit_p2(a0)] <= 57));
                assert(o2 == v2 && j2x as int == lit_p2(a0));
                assert((j2x as int) < entry@.len() && entry@[j2x as int] == 46);
                assert(j2 as int == lit_p2(a0) + 1);
                let v3: u32 = (lit_o3(a0)) as u32;
                assert(v3 as int == lit_o3(a0));
                assert((j2 as int) + dec_rep(v3 as int).len() == lit_p3(a0));
                assert(entry@.subrange(j2 as int, lit_p3(a0)) == dec_rep(v3 as int));
                assert(!(48 <= entry@[lit_p3(a0)] <= 57));
                assert(o3 == v3 && j3x as int == lit_p3(a0));
                assert((j3x as int) < entry@.len() && entry@[j3x as int] == 46);
                assert(j3 as int == lit_p3(a0) + 1);
                let v4: u32 = (lit_o4(a0)) as u32;
                assert(v4 as int == lit_o4(a0));
                assert((j3 as int) + dec_rep(v4 as int).len() == lit_p4(a0));
                assert(entry@.subrange(j3 as int, lit_p4(a0)) == dec_rep(v4 as int));
                assert(!(48 <= entry@[lit_p4(a0)] <= 57));
                assert(o4 == v4 && j4 as int == lit_p4(a0));
                assert((j4 as int) < entry@.len() && entry@[j4 as int] == 58);
            }
        }
        return None;
    }
    let (port, j5) = match parse_u32_digits(entry, j4 + 1) {
        Some(p) => p,
        None => {
        proof {
            assert forall|a0: KAddress| entry@ == addr_literal(a0) implies false by {
                lemma_lit_steps(entry@, a0);
                let v1: u32 = (lit_o1(a0)) as u32;
                assert(v1 as int == lit_o1(a0));
                assert((0) + dec_rep(v1 as int).len() == lit_p1(a0));
                assert(entry@.subrange(0, lit_p1(a0)) == dec_rep(v1 as int));
                assert(!(48 <= entry@[lit_p1(a0)] <= 57));
                assert(o1 == v1 && j1x as int == lit_p1(a0));
                assert((j1x as int) < entry@.len() && entry@[j1x as int] == 46);
                assert(j1 as int == lit_p1(a0) + 1);
                let v2: u32 = (lit_o2(a0)) as u32;
                assert(v2 as int == lit_o2(a0));
                assert((j1 as int) + dec_rep(v2 as int).len() == lit_p2(a0));
                assert(entry@.subrange(j1 as int, lit_p2(a0)) == dec_rep(v2 as int));
                assert(!(48 <= entry@[lit_p2(a0)] <= 57));
                assert(o2 == v2 && j2x as int == lit_p2(a0));
                assert((j2x as int) < entry@.len() && entry@[j2x as int] == 46);
                assert(j2 as int == lit_p2(a0) + 1);
                let v3: u32 = (lit_o3(a0)) as u32;
                assert(v3 as int == lit_o3(a0));
                assert((j2 as int) + dec_rep(v3 as int).len() == lit_p3(a0));
                assert(entry@.subrange(j2 as int, lit_p3(a0)) == dec_rep(v3 as int));
                assert(!(48 <= entry@[lit_p3(a0)] <= 57));
                assert(o3 == v3 && j3x as int == lit_p3(a0));
                assert((j3x as int) < entry@.len() && entry@[j3x as int] == 46);
                assert(j3 as int == lit_p3(a0) + 1);
                let v4: u32 = (lit_o4(a0)) as u32;
                assert(v4 as int == lit_o4(a0));
                assert((j3 as int) + dec_rep(v4 as int).len() == lit_p4(a0));
                assert(entry@.subrange(j3 as int, lit_p4(a0)) == dec_rep(v4 as int));
                assert(!(48 <= entry@[lit_p4(a0)] <= 57));
                assert(o4 == v4 && j4 as int == lit_p4(a0));
                assert((j4 as int) < entry@.len() && entry@[j4 as int] == 58);
                let v5: u32 = (a0.port as int) as u32;
                assert(v5 as int == a0.port as int);
                assert((j4 as int + 1) + dec_rep(v5 as int).len() == lit_end(a0));
                assert(entry@.subrange(j4 as int + 1, lit_end(a0)) == dec_rep(v5 as int));
                assert(lit_end(a0) == entry@.len());
            }
        }
            return None;
        },
    };
    if j5 != n || o1 > 255 || o2 > 255 || o3 > 255 || o4 > 255 || port > 0xffff {
        proof {
            assert forall|a0: KAddress| entry@ == addr_literal(a0) implies false by {
                lemma_lit_steps(entry@, a0);
                let v1: u32 = (lit_o1(a0)) as u32;
                assert(v1 as int == lit_o1(a0));
                assert((0) + dec_rep(v1 as int).len() == lit_p1(a0));
                assert(entry@.subrange(0, lit_p1(a0)) == dec_rep(v1 as int));
                assert(!(48 <= entry@[lit_p1(a0)] <= 57));
                assert(o1 == v1 && j1x as int == lit_p1(a0));
                assert((j1x as int) < entry@.len() && entry@[j1x as int] == 46);
                assert(j1 as int == lit_p1(a0) + 1);
                let v2: u32 = (lit_o2(a0)) as u32;
                assert(v2 as int == lit_o2(a0));
                assert((j1 as int) + dec_rep(v2 as int).len() == lit_p2(a0));
                assert(entry@.subrange(j1 as int, lit_p2(a0)) == dec_rep(v2 as int));
                assert(!(48 <= entry@[lit_p2(a0)] <= 57));
                assert(o2 == v2 && j2x as int == lit_p2(a0));
                assert((j2x as int) < entry@.len() && entry@[j2x as int] == 46);
                assert(j2 as int == lit_p2(a0) + 1);
                let v3: u32 = (lit_o3(a0)) as u32;
                assert(v3 as int == lit_o3(a0));
                assert((j2 as int) + dec_rep(v3 as int).len() == lit_p3(a0));
                assert(entry@.subrange(j2 as int, lit_p3(a0)) == dec_rep(v3 as int));
                assert(!(48 <= entry@[lit_p3(a0)] <= 57));
                assert(o3 == v3 && j3x as int == lit_p3(a0));
                assert((j3x as int) < entry@.len() && entry@[j3x as int] == 46);
                assert(j3 as int == lit_p3(a0) + 1);
                let v4: u32 = (lit_o4(a0)) as u32;
                assert(v4 as int == lit_o4(a0));
                assert((j3 as int) + dec_rep(v4 as int).len() == lit_p4(a0));
                assert(entry@.subrange(j3 as int, lit_p4(a0)) == dec_rep(v4 as int));
                assert(!(48 <= entry@[lit_p4(a0)] <= 57));
                assert(o4 == v4 && j4 as int == lit_p4(a0));
                assert((j4 as int) < entry@.len() && entry@[j4 as int] == 58);
                let v5: u32 = (a0.port as int) as u32;
                assert(v5 as int == a0.port as int);
                assert((j4 as int + 1) + dec_rep(v5 as int).len() == lit_end(a0));
                assert(entry@.subrange(j4 as int + 1, lit_end(a0)) == dec_rep(v5 as int));
                assert(lit_end(a0) == entry@.len());
                assert(port == v5 && j5 as int == lit_end(a0));
            }
        }
        return None;
    }
    let a = KAddress { ip: o1 * 0x1000000 + o2 * 0x10000 + o3 * 0x100 + o4, port: port as u16 };
    let mut again: Vec<u8> = Vec::new();
    append_dec(&mut again, (a.ip / 0x1000000) as u64);
    again.push(46);
    append_dec(&mut again, ((a.ip / 0x10000) % 256) as u64);
    again.push(46);
    append_dec(&mut again, ((a.ip / 0x100) % 256) as u64);
    again.push(46);
    append_dec(&mut again, (a.ip % 256) as u64);
    again.push(58);
    append_dec(&mut again, a.port as u64);
    proof {
        assert(again@ =~= addr_literal(a));
    }
    if slices_eq(entry, again.as_slice()) {
        Some(a)
    } else {
        proof {
            assert forall|a0: KAddress| entry@ == addr_literal(a0) implies false by {
                lemma_lit_steps(entry@, a0);
                let v1: u32 = (lit_o1(a0)) as u32;
                assert(v1 as int == lit_o1(a0));
                assert((0) + dec_rep(v1 as int).len() == lit_p1(a0));
                assert(entry@.subrange(0, lit_p1(a0)) == dec_rep(v1 as int));
                assert(!(48 <= entry@[lit_p1(a0)] <= 57));
                assert(o1 == v1 && j1x as int == lit_p1(a0));
                assert((j1x as int) < entry@.len() && entry@[j1x as int] == 46);
                assert(j1 as int == lit_p1(a0) + 1);
                let v2: u32 = (lit_o2(a0)) as u32;
                assert(v2 as int == lit_o2(a0));
                assert((j1 as int) + dec_rep(v2 as int).len() == lit_p2(a0));
                assert(entry@.subrange(j1 as int, lit_p2(a0)) == dec_rep(v2 as int));
                assert(!(48 <= entry@[lit_p2(a0)] <= 57));
                assert(o2 == v2 && j2x as int == lit_p2(a0));
                assert((j2x as int) < entry@.len() && entry@[j2x as int] == 46);
                assert(j2 as int == lit_p2(a0) + 1);
                let v3: u32 = (lit_o3(a0)) as u32;
                assert(v3 as int == lit_o3(a0));
                assert((j2 as int) + dec_rep(v3 as int).len() == lit_p3(a0));
                assert(entry@.subrange(j2 as int, lit_p3(a0)) == dec_rep(v3 as int));
                assert(!(48 <= entry@[lit_p3(a0)] <= 57));
                assert(o3 == v3 && j3x as int == lit_p3(a0));
                assert((j3x as int) < entry@.len() && entry@[j3x as int] == 46);
                assert(j3 as int == lit_p3(a0) + 1);
                let v4: u32 = (lit_o4(a0)) as u32;
                assert(v4 as int == lit_o4(a0));
                assert((j3 as int) + dec_rep(v4 as int).len() == lit_p4(a0));
                assert(entry@.subrange(j3 as int, lit_p4(a0)) == dec_rep(v4 as int));
                assert(!(48 <= entry@[lit_p4(a0)] <= 57));
                assert(o4 == v4 && j4 as int == lit_p4(a0));
                assert((j4 as int) < entry@.len() && entry@[j4 as int] == 58);
                let v5: u32 = (a0.port as int) as u32;
                assert(v5 as int == a0.port as int);
                assert((j4 as int + 1) + dec_rep(v5 as int).len() == lit_end(a0));
                assert(entry@.subrange(j4 as int + 1, lit_end(a0)) == dec_rep(v5 as int));
                assert(lit_end(a0) == entry@.len());
                assert(port == v5 && j5 as int == lit_end(a0));
                lemma_ip_recompose(a0.ip);
                assert(a.ip as int == lit_o1(a0) * 0x1000000 + lit_o2(a0) * 0x10000 + lit_o3(a0)
                    * 0x100 + lit_o4(a0));
                assert(a.ip == a0.ip);
                assert(a.port == a0.port);
                assert(a == a0);
                assert(again@ == entry@);
            }
        }
        return None;
    }
}

fn expect_dot(s: &[u8], i: usize) -> (r: Option<usize>)
    requires
        i <= s@.len(),
    ensures
        r matches Some(j) ==> i < j <= s@.len(),
        i < s@.len() && s@[i as int] == 46 ==> r == Some((i + 1) as usize),
        !(i < s@.len() && s@[i as int] == 46) ==> r is None,
{
    if i < s.len() && s[i] == 46 {
        Some(i + 1)
    } else {
        None
    }
}

/// Whether two byte slices hold the same bytes.
fn slices_eq(a: &[u8], b: &[u8]) -> (r: bool)
    ensures
        r <==> a@ == b@,
{
    if a.len() != b.len() {
        proof {
            assert(a@.len() != b@.len());
        }
        return false;
    }
    let mut i: usize = 0;
    while i < a.len()
        invariant
            0 <= i <= a@.len(),
            a@.len() == b@.len(),
            forall|j: int| 0 <= j < i ==> a@[j] == b@[j],
        decreases a@.len() - i,
    {
        if a[i] != b[i] {
            return false;
        }
        i += 1;
    }
    proof {
        assert(a@ =~= b@);
    }
    true
}

/// Classify one bootstrap entry. A canonical `a.b.c.d:port` literal is
/// always an address of its own. Otherwise the part before the first
/// colon names a host: with no colon the default port applies, with one
/// colon the digits after it are the port, and a second colon, or a bad
/// port, rejects the entry.
pub fn parse_bootstrap_entry(entry: &[u8]) -> (r: Result<HostPort, ResolveError>)
    ensures
        (exists|a: KAddress| entry@ == addr_literal(a)) ==> (r matches Ok(h) && h is Addr),
        r matches Ok(h) ==> match h {
            HostPort::Addr(a) => entry@ == addr_literal(a),
            HostPort::Lookup(host, port) => {
                &&& forall|k: int| 0 <= k < host@.len() ==> host@[k] != 58
                &&& (host@ == entry@ && port == 6881 || (host@.len() < entry@.len()
                    && entry@.subrange(0, host@.len() as int) == host@
                    && entry@[host@.len() as int] == 58 && all_digits(
                    entry@.subrange(host@.len() as int + 1, entry@.len() as int),
                ) && dec_val(entry@.subrange(host@.len() as int + 1, entry@.len() as int)) == port))
            },
        },
        r matches Err(e) ==> match e {
            ResolveError::InvalidPort(raw) => exists|c: int|
                0 <= c < entry@.len() && entry@[c] == 58 && raw@ == entry@.subrange(
                    c + 1,
                    entry@.len() as int,
                ) && (!all_digits(raw@) || dec_val(raw@) > 0xffff),
            ResolveError::InvalidAddr(raw) => raw@ == entry@ && exists|c1: int, c2: int|
                0 <= c1 < c2 < entry@.len() && #[trigger] entry@[c1] == 58 && #[trigger] entry@[c2]
                    == 58,
            ResolveError::Unresolved(_) => false,
        },
{
    if let Some(a) = parse_addr_literal(entry) {
        return Ok(HostPort::Addr(a));
    }
    let c = find_colon(entry, 0);
    if c == entry.len() {
        let host = copy_range(entry, 0, entry.len());
        proof {
            assert(host@ =~= entry@);
        }
        return Ok(HostPort::Lookup(host, DEFAULT_PORT));
    }
    let c2 = find_colon(entry, c + 1);
    if c2 != entry.len() {
        let raw = copy_range(entry, 0, entry.len());
        proof {
            assert(raw@ =~= entry@);
        }
        return Err(ResolveError::InvalidAddr(raw));
    }
    match parse_port(entry, c + 1) {
        Some(port) => {
            let host = copy_range(entry, 0, c);
            Ok(HostPort::Lookup(host, port))
        },
        None => {
            let raw = copy_range(entry, c + 1, entry.len());
            Err(ResolveError::InvalidPort(raw))
        },
    }
}

} // verus!
