//! Bit-level view of 160-bit node identifiers and the common-prefix metric.

use vstd::prelude::*;
use vstd::std_specs::bits::u8_leading_zeros;
use vstd::std_specs::bits::axiom_u8_leading_zeros;

verus! {

/// Number of bits in a node identifier.
pub const ID_BITS: usize = 160;

/// Number of bytes in a node identifier.
pub const ID_BYTES: usize = 20;

/// The `k`-th bit of a byte sequence, counting from the most significant
/// bit of the first byte.
pub open spec fn bit_of(s: Seq<u8>, k: int) -> bool {
    (s[k / 8] >> ((7 - k % 8) as u8)) & 1 == 1
}

/// First position at or after `k` where the bits of `a` and `b` differ,
/// or 160 when no position below 160 does.
pub open spec fn equal_bits_from(a: Seq<u8>, b: Seq<u8>, k: int) -> int
    decreases 160 - k,
{
    if k < 0 || k >= 160 {
        160
    } else if bit_of(a, k) != bit_of(b, k) {
        k
    } else {
        equal_bits_from(a, b, k + 1)
    }
}

/// Length of the common leading bit prefix of two 20-byte identifiers:
/// 0 to 160 inclusive, and 160 exactly when the identifiers agree on
/// every bit.
pub open spec fn spec_equal_bits(a: Seq<u8>, b: Seq<u8>) -> int {
    equal_bits_from(a, b, 0)
}

/// A 160-bit identifier, seen as its byte sequence.
pub trait NodeId: Sized {
    spec fn id_view(&self) -> Seq<u8>;

    /// Number of leading bits that are identical between two identifiers.
    fn equal_bits(&self, other: &Self) -> (r: usize)
        requires
            self.id_view().len() == 20,
            other.id_view().len() == 20,
        ensures
            r == spec_equal_bits(self.id_view(), other.id_view()),
            r <= 160,
    ;
}

proof fn lemma_equal_bits_from_char(a: Seq<u8>, b: Seq<u8>, k: int)
    requires
        0 <= k <= 160,
    ensures
        k <= equal_bits_from(a, b, k) <= 160,
        forall|j: int| k <= j < equal_bits_from(a, b, k) ==> bit_of(a, j) == bit_of(b, j),
        equal_bits_from(a, b, k) < 160 ==> bit_of(a, equal_bits_from(a, b, k)) != bit_of(
            b,
            equal_bits_from(a, b, k),
        ),
    decreases 160 - k,
{
    if k < 160 && bit_of(a, k) == bit_of(b, k) {
        lemma_equal_bits_from_char(a, b, k + 1);
    }
}

proof fn lemma_equal_bits_from_unique(a: Seq<u8>, b: Seq<u8>, k: int, n: int)
    requires
        0 <= k <= n <= 160,
        forall|j: int| k <= j < n ==> bit_of(a, j) == bit_of(b, j),
        n < 160 ==> bit_of(a, n) != bit_of(b, n),
    ensures
        equal_bits_from(a, b, k) == n,
    decreases 160 - k,
{
    if k < n {
        lemma_equal_bits_from_unique(a, b, k + 1, n);
    }
}

/// The prefix length is between 0 and 160; every bit before it agrees,
/// and the bit at it (when any) differs.
pub proof fn lemma_equal_bits_char(a: Seq<u8>, b: Seq<u8>)
    ensures
        0 <= spec_equal_bits(a, b) <= 160,
        forall|j: int| 0 <= j < spec_equal_bits(a, b) ==> bit_of(a, j) == bit_of(b, j),
        spec_equal_bits(a, b) < 160 ==> bit_of(a, spec_equal_bits(a, b)) != bit_of(
            b,
            spec_equal_bits(a, b),
        ),
{
    lemma_equal_bits_from_char(a, b, 0);
}

/// The prefix length is the only number with that characterization.
pub proof fn lemma_equal_bits_unique(a: Seq<u8>, b: Seq<u8>, n: int)
    requires
        0 <= n <= 160,
        forall|j: int| 0 <= j < n ==> bit_of(a, j) == bit_of(b, j),
        n < 160 ==> bit_of(a, n) != bit_of(b, n),
    ensures
        spec_equal_bits(a, b) == n,
{
    lemma_equal_bits_from_unique(a, b, 0, n);
}

/// An identifier shares all 160 bits with itself.
pub proof fn lemma_equal_bits_self(a: Seq<u8>)
    ensures
        spec_equal_bits(a, a) == 160,
{
    lemma_equal_bits_unique(a, a, 160);
}

/// The metric is symmetric.
pub proof fn lemma_equal_bits_sym(a: Seq<u8>, b: Seq<u8>)
    ensures
        spec_equal_bits(a, b) == spec_equal_bits(b, a),
{
    lemma_equal_bits_char(a, b);
    lemma_equal_bits_unique(b, a, spec_equal_bits(a, b));
}

proof fn lemma_byte_of_bits(x: u8, y: u8)
    requires
        forall|s: u8| s < 8 ==> (x >> s) & 1 == (y >> s) & 1,
    ensures
        x == y,
{
    assert((x >> 7) & 1 == (y >> 7) & 1 && (x >> 6) & 1 == (y >> 6) & 1 && (x >> 5) & 1 == (y >> 5)
        & 1 && (x >> 4) & 1 == (y >> 4) & 1 && (x >> 3) & 1 == (y >> 3) & 1 && (x >> 2) & 1 == (y
        >> 2) & 1 && (x >> 1) & 1 == (y >> 1) & 1 && (x >> 0) & 1 == (y >> 0) & 1 ==> x == y)
        by (bit_vector);
}

/// A single extracted bit is 0 or 1.
proof fn lemma_bit01(x: u8, s: u8)
    ensures
        (x >> s) & 1 == 0 || (x >> s) & 1 == 1,
{
    assert((x >> s) & 1 == 0 || (x >> s) & 1 == 1) by (bit_vector);
}

/// A bit of an XOR is clear exactly when the operands agree on that bit.
proof fn lemma_xor_bit(x: u8, y: u8, s: u8)
    requires
        s < 8,
    ensures
        ((x ^ y) >> s) & 1 == 0 <==> (x >> s) & 1 == (y >> s) & 1,
{
    assert(s < 8 ==> (((x ^ y) >> s) & 1 == 0 <==> (x >> s) & 1 == (y >> s) & 1)) by (bit_vector);
}

/// The prefix is shorter than 160 exactly when the identifiers differ.
pub proof fn lemma_equal_bits_ne(a: Seq<u8>, b: Seq<u8>)
    requires
        a.len() == 20,
        b.len() == 20,
    ensures
        spec_equal_bits(a, b) < 160 <==> a != b,
{
    lemma_equal_bits_char(a, b);
    if spec_equal_bits(a, b) == 160 {
        assert forall|i: int| 0 <= i < 20 implies a[i] == b[i] by {
            assert forall|s: u8| s < 8 implies (a[i] >> s) & 1 == (b[i] >> s) & 1 by {
                let k = 8 * i + 7 - s;
                assert(bit_of(a, k) == bit_of(b, k));
                assert(k / 8 == i && (7 - k % 8) as u8 == s) by (nonlinear_arith)
                    requires
                        0 <= i < 20 && s < 8 && k == 8 * i + 7 - s,
                ;
                lemma_bit01(a[i], s);
                lemma_bit01(b[i], s);
            }
            lemma_byte_of_bits(a[i], b[i]);
        }
        assert(a =~= b);
    } else {
        assert(a != b) by {
            let n = spec_equal_bits(a, b);
            if a == b {
                assert(bit_of(a, n) == bit_of(b, n));
            }
        }
    }
}

/// Two identifiers that agree with a third on prefixes of different
/// lengths have, between themselves, the shorter of the two prefixes.
pub proof fn lemma_equal_bits_min(a: Seq<u8>, b: Seq<u8>, c: Seq<u8>)
    ensures
        spec_equal_bits(a, c) >= vstd::math::min(spec_equal_bits(a, b), spec_equal_bits(b, c)),
        spec_equal_bits(a, b) != spec_equal_bits(b, c) ==> spec_equal_bits(a, c)
            == vstd::math::min(spec_equal_bits(a, b), spec_equal_bits(b, c)),
{
    lemma_equal_bits_char(a, b);
    lemma_equal_bits_char(b, c);
    lemma_equal_bits_char(a, c);
    let m = vstd::math::min(spec_equal_bits(a, b), spec_equal_bits(b, c));
    assert forall|j: int| 0 <= j < m implies bit_of(a, j) == bit_of(c, j) by {
        assert(bit_of(a, j) == bit_of(b, j));
        assert(bit_of(b, j) == bit_of(c, j));
    }
    if spec_equal_bits(a, c) < m {
        assert(bit_of(a, spec_equal_bits(a, c)) == bit_of(c, spec_equal_bits(a, c)));
    }
    if spec_equal_bits(a, b) != spec_equal_bits(b, c) {
        if m < 160 {
            if spec_equal_bits(a, b) < spec_equal_bits(b, c) {
                assert(bit_of(a, m) != bit_of(b, m));
                assert(bit_of(b, m) == bit_of(c, m));
            } else {
                assert(bit_of(b, m) != bit_of(c, m));
                assert(bit_of(a, m) == bit_of(b, m));
            }
            lemma_equal_bits_unique(a, c, m);
        }
    }
}

/// Leading equal bits of two 20-byte buffers, as the exec counterpart of
/// [`spec_equal_bits`].
pub fn equal_bits_of(a: &[u8; 20], b: &[u8; 20]) -> (r: usize)
    ensures
        r == spec_equal_bits(a@, b@),
        r <= 160,
{
    let mut i: usize = 0;
    while i < 20
        invariant
            0 <= i <= 20,
            forall|j: int| 0 <= j < i ==> a@[j] == b@[j],
        decreases 20 - i,
    {
        if a[i] != b[i] {
            let d: u8 = a[i] ^ b[i];
            let lz: u32 = d.leading_zeros();
            proof {
                axiom_u8_leading_zeros(d);
                assert(d != 0) by {
                    lemma_xor_bit_zero(a@[i as int], b@[i as int]);
                }
                let n = 8 * (i as int) + lz;
                assert forall|j: int| 0 <= j < n implies bit_of(a@, j) == bit_of(b@, j) by {
                    lemma_bit_agree(a@, b@, i as int, lz as int, j);
                }
                assert(bit_of(a@, n) != bit_of(b@, n)) by {
                    assert(n / 8 == i && n % 8 == lz) by (nonlinear_arith)
                        requires
                            0 <= i < 20 && 0 <= lz < 8 && n == 8 * (i as int) + lz,
                    ;
                    let s7: u8 = (7 - lz) as u8;
                    assert((d >> s7) & 1 != 0);
                    lemma_xor_bit(a@[i as int], b@[i as int], s7);
                    lemma_bit01(a@[i as int], s7);
                    lemma_bit01(b@[i as int], s7);
                }
                lemma_equal_bits_unique(a@, b@, n);
            }
            return i * 8 + (lz as usize);
        }
        i += 1;
    }
    proof {
        assert forall|j: int| 0 <= j < 160 implies bit_of(a@, j) == bit_of(b@, j) by {
            assert(a@[j / 8] == b@[j / 8]);
        }
        lemma_equal_bits_unique(a@, b@, 160);
    }
    160
}

/// Distinct bytes have a set bit in their XOR.
proof fn lemma_xor_bit_zero(x: u8, y: u8)
    requires
        x != y,
    ensures
        (x ^ y) != 0,
{
    assert(x != y ==> (x ^ y) != 0) by (bit_vector);
}

proof fn lemma_bit_agree(a: Seq<u8>, b: Seq<u8>, i: int, lz: int, j: int)
    requires
        0 <= i < 20,
        a.len() == 20,
        b.len() == 20,
        0 <= lz <= 8,
        forall|p: int| 0 <= p < i ==> a[p] == b[p],
        forall|s: u8| 8 - lz <= s < 8 ==> ((a[i] ^ b[i]) >> s) & 1 == 0,
        0 <= j < 8 * i + lz,
    ensures
        bit_of(a, j) == bit_of(b, j),
{
    if j < 8 * i {
        assert(0 <= j / 8 < i) by (nonlinear_arith)
            requires
                0 <= j && j < 8 * i && i <= 20,
        ;
        assert(a[j / 8] == b[j / 8]);
    } else {
        let s = (7 - j % 8) as u8;
        assert(j / 8 == i && 8 - lz <= s < 8) by (nonlinear_arith)
            requires
                8 * i <= j && j < 8 * i + lz && lz <= 8 && s == (7 - j % 8) && 0 <= i,
        ;
        assert(((a[i] ^ b[i]) >> s) & 1 == 0);
        lemma_xor_bit(a[i], b[i], s);
    }
}

} // verus!
