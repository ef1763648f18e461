//! The distance between two features, and the Hamming distance over bit strings.

use vstd::prelude::*;

verus! {

/// The distance that the index orders features by.
///
/// `gap` is the distance as a mathematical function; `distance` computes it.
/// An implementation that does not state its `gap` leaves it undetermined.
pub trait Distance {
    /// The distance from `lhs` to `rhs`.
    open spec fn gap(lhs: &Self, rhs: &Self) -> u32 {
        arbitrary()
    }

    /// Computes the distance from `lhs` to `rhs`.
    fn distance(lhs: &Self, rhs: &Self) -> (d: u32)
        ensures
            d == Self::gap(lhs, rhs),
    ;
}

/// Bits as dimensions: the distance is the number of bits that differ.
#[derive(Clone, Copy, Debug, PartialOrd, Ord, PartialEq, Eq)]
pub struct Hamming<T>(pub T);

/// Floats as coordinates: the distance is Euclidean.
#[derive(Copy, Clone, Debug, PartialEq, Eq)]
pub struct Euclidean<T>(pub T);

/// The number of ones in the binary representation of `x`.
pub open spec fn popcount(x: nat) -> nat
    decreases x,
{
    if x == 0 {
        0
    } else {
        (x % 2) + popcount(x / 2)
    }
}

/// Two to the power of `bits`.
pub open spec fn limit(bits: nat) -> nat
    decreases bits,
{
    if bits == 0 {
        1
    } else {
        2 * limit((bits - 1) as nat)
    }
}

/// `u8::count_ones` returns the number of ones in the binary representation of its argument.
pub assume_specification[ u8::count_ones ](i: u8) -> (r: u32)
    ensures
        r == popcount(i as nat),
;

/// `u16::count_ones` returns the number of ones in the binary representation of its argument.
pub assume_specification[ u16::count_ones ](i: u16) -> (r: u32)
    ensures
        r == popcount(i as nat),
;

/// `u32::count_ones` returns the number of ones in the binary representation of its argument.
pub assume_specification[ u32::count_ones ](i: u32) -> (r: u32)
    ensures
        r == popcount(i as nat),
;

/// `u64::count_ones` returns the number of ones in the binary representation of its argument.
pub assume_specification[ u64::count_ones ](i: u64) -> (r: u32)
    ensures
        r == popcount(i as nat),
;

/// `u128::count_ones` returns the number of ones in the binary representation of its argument.
pub assume_specification[ u128::count_ones ](i: u128) -> (r: u32)
    ensures
        r == popcount(i as nat),
;

/// A number below two to the power of `bits` has at most `bits` ones.
pub proof fn lemma_popcount_bound(x: nat, bits: nat)
    requires
        x < limit(bits),
    ensures
        popcount(x) <= bits,
    decreases bits,
{
    if bits > 0 && x > 0 {
        lemma_popcount_bound(x / 2, (bits - 1) as nat);
    }
}

/// Powers of two multiply.
pub proof fn lemma_limit_add(a: nat, b: nat)
    ensures
        limit(a + b) == limit(a) * limit(b),
    decreases b,
{
    if b > 0 {
        lemma_limit_add(a, (b - 1) as nat);
        assert(limit(a + b) == 2 * limit((a + b - 1) as nat));
        assert(2 * (limit(a) * limit((b - 1) as nat)) == limit(a) * (2 * limit((b - 1) as nat)))
            by (nonlinear_arith);
    } else {
        assert(limit(a) * 1 == limit(a)) by (nonlinear_arith);
    }
}

/// The values of two to the power of 8, 16, 32, 64 and 128.
pub proof fn lemma_limits()
    ensures
        limit(8) == 0x100,
        limit(16) == 0x1_0000,
        limit(32) == 0x1_0000_0000,
        limit(64) == 0x1_0000_0000_0000_0000,
        limit(128) == 0x1_0000_0000_0000_0000_0000_0000_0000_0000,
{
    assert(limit(8) == 0x100) by {
        reveal_with_fuel(limit, 9);
    }
    lemma_limit_add(8, 8);
    assert(limit(16) == 0x1_0000) by (nonlinear_arith)
        requires
            limit(16) == limit(8) * limit(8),
            limit(8) == 0x100,
    ;
    lemma_limit_add(16, 16);
    assert(limit(32) == 0x1_0000_0000) by (nonlinear_arith)
        requires
            limit(32) == limit(16) * limit(16),
            limit(16) == 0x1_0000,
    ;
    lemma_limit_add(32, 32);
    assert(limit(64) == 0x1_0000_0000_0000_0000) by (nonlinear_arith)
        requires
            limit(64) == limit(32) * limit(32),
            limit(32) == 0x1_0000_0000,
    ;
    lemma_limit_add(64, 64);
    assert(limit(128) == 0x1_0000_0000_0000_0000_0000_0000_0000_0000) by (nonlinear_arith)
        requires
            limit(128) == limit(64) * limit(64),
            limit(64) == 0x1_0000_0000_0000_0000,
    ;
}

/// The number of bits in which two bytes differ.
pub open spec fn bits_apart(l: u8, r: u8) -> nat {
    popcount((l ^ r) as nat)
}

/// The number of bits in which the first `n` bytes of `l` and of `r` differ.
pub open spec fn bytes_apart(l: Seq<u8>, r: Seq<u8>, n: nat) -> nat
    decreases n,
{
    if n == 0 {
        0
    } else {
        bytes_apart(l, r, (n - 1) as nat) + bits_apart(l[n - 1], r[n - 1])
    }
}

/// The Hamming distance of two byte strings over the length of the shorter
/// one, or `u32::MAX` where it is larger than that.
pub open spec fn bytes_gap(l: Seq<u8>, r: Seq<u8>) -> u32 {
    let n = if l.len() <= r.len() {
        l.len()
    } else {
        r.len()
    };
    if bytes_apart(l, r, n) <= u32::MAX {
        bytes_apart(l, r, n) as u32
    } else {
        u32::MAX
    }
}

/// Two byte strings differ as much one way as the other.
pub proof fn lemma_bytes_apart_swap(l: Seq<u8>, r: Seq<u8>, n: nat)
    ensures
        bytes_apart(l, r, n) == bytes_apart(r, l, n),
    decreases n,
{
    if n > 0 {
        lemma_bytes_apart_swap(l, r, (n - 1) as nat);
        let (x, y) = (l[n - 1], r[n - 1]);
        assert(x ^ y == y ^ x) by (bit_vector);
    }
}

/// The Hamming distance of byte strings is 0 from a string to itself, and
/// the same both ways.
pub proof fn lemma_bytes_gap(l: Seq<u8>, r: Seq<u8>)
    ensures
        bytes_gap(l, l) == 0,
        bytes_gap(l, r) == bytes_gap(r, l),
{
    lemma_bytes_apart_same(l, l.len());
    let n = if l.len() <= r.len() {
        l.len()
    } else {
        r.len()
    };
    lemma_bytes_apart_swap(l, r, n);
}

/// A byte string does not differ from itself.
pub proof fn lemma_bytes_apart_same(l: Seq<u8>, n: nat)
    ensures
        bytes_apart(l, l, n) == 0,
    decreases n,
{
    if n > 0 {
        lemma_bytes_apart_same(l, (n - 1) as nat);
        let b = l[n - 1];
        assert(b ^ b == 0) by (bit_vector);
    }
}

/// The Hamming distance of two byte strings, over the length of the shorter one.
pub fn hamming_bytes(lhs: &[u8], rhs: &[u8]) -> (d: u32)
    ensures
        d == bytes_gap(lhs@, rhs@),
{
    let n = if lhs.len() <= rhs.len() {
        lhs.len()
    } else {
        rhs.len()
    };
    let mut total: u32 = 0;
    let mut i: usize = 0;
    while i < n
        invariant
            i <= n,
            n <= lhs@.len(),
            n <= rhs@.len(),
            n == if lhs@.len() <= rhs@.len() {
                lhs@.len()
            } else {
                rhs@.len()
            },
            total == if bytes_apart(lhs@, rhs@, i as nat) <= u32::MAX {
                bytes_apart(lhs@, rhs@, i as nat) as u32
            } else {
                u32::MAX
            },
        decreases n - i,
    {
        let ones = (lhs[i] ^ rhs[i]).count_ones();
        proof {
            lemma_limits();
            lemma_popcount_bound((lhs[i as int] ^ rhs[i as int]) as nat, 8);
        }
        total = if total > u32::MAX - ones {
            u32::MAX
        } else {
            total + ones
        };
        i += 1;
    }
    total
}

impl<'a> Distance for Hamming<&'a [u8]> {
    open spec fn gap(lhs: &Self, rhs: &Self) -> u32 {
        bytes_gap(lhs.0@, rhs.0@)
    }

    fn distance(lhs: &Self, rhs: &Self) -> (d: u32) {
        hamming_bytes(lhs.0, rhs.0)
    }
}

impl Distance for Hamming<Vec<u8>> {
    open spec fn gap(lhs: &Self, rhs: &Self) -> u32 {
        bytes_gap(lhs.0@, rhs.0@)
    }

    fn distance(lhs: &Self, rhs: &Self) -> (d: u32) {
        hamming_bytes(lhs.0.as_slice(), rhs.0.as_slice())
    }
}

impl Distance for Hamming<u8> {
    open spec fn gap(lhs: &Self, rhs: &Self) -> u32 {
        popcount((lhs.0 ^ rhs.0) as nat) as u32
    }

    fn distance(lhs: &Self, rhs: &Self) -> (d: u32) {
        (lhs.0 ^ rhs.0).count_ones()
    }
}

impl Distance for Hamming<u16> {
    open spec fn gap(lhs: &Self, rhs: &Self) -> u32 {
        popcount((lhs.0 ^ rhs.0) as nat) as u32
    }

    fn distance(lhs: &Self, rhs: &Self) -> (d: u32) {
        (lhs.0 ^ rhs.0).count_ones()
    }
}

impl Distance for Hamming<u32> {
    open spec fn gap(lhs: &Self, rhs: &Self) -> u32 {
        popcount((lhs.0 ^ rhs.0) as nat) as u32
    }

    fn distance(lhs: &Self, rhs: &Self) -> (d: u32) {
        (lhs.0 ^ rhs.0).count_ones()
    }
}

impl Distance for Hamming<u64> {
    open spec fn gap(lhs: &Self, rhs: &Self) -> u32 {
        popcount((lhs.0 ^ rhs.0) as nat) as u32
    }

    fn distance(lhs: &Self, rhs: &Self) -> (d: u32) {
        (lhs.0 ^ rhs.0).count_ones()
    }
}

impl Distance for Hamming<u128> {
    open spec fn gap(lhs: &Self, rhs: &Self) -> u32 {
        popcount((lhs.0 ^ rhs.0) as nat) as u32
    }

    fn distance(lhs: &Self, rhs: &Self) -> (d: u32) {
        (lhs.0 ^ rhs.0).count_ones()
    }
}

/// Two bit strings of 8 bits differ in at most 8 bits, as much one way
/// as the other, and a bit string does not differ from itself.
pub proof fn lemma_hamming_u8(a: Hamming<u8>, b: Hamming<u8>)
    ensures
        Hamming::<u8>::gap(&a, &b) <= 8,
        Hamming::<u8>::gap(&a, &b) == Hamming::<u8>::gap(&b, &a),
        Hamming::<u8>::gap(&a, &a) == 0,
{
    let (x, y) = (a.0, b.0);
    assert(x ^ y == y ^ x) by (bit_vector);
    assert(x ^ x == 0) by (bit_vector);
    lemma_limits();
    lemma_popcount_bound((x ^ y) as nat, 8);
}

/// Two bit strings of 16 bits differ in at most 16 bits, as much one way
/// as the other, and a bit string does not differ from itself.
pub proof fn lemma_hamming_u16(a: Hamming<u16>, b: Hamming<u16>)
    ensures
        Hamming::<u16>::gap(&a, &b) <= 16,
        Hamming::<u16>::gap(&a, &b) == Hamming::<u16>::gap(&b, &a),
        Hamming::<u16>::gap(&a, &a) == 0,
{
    let (x, y) = (a.0, b.0);
    assert(x ^ y == y ^ x) by (bit_vector);
    assert(x ^ x == 0) by (bit_vector);
    lemma_limits();
    lemma_popcount_bound((x ^ y) as nat, 16);
}

/// Two bit strings of 32 bits differ in at most 32 bits, as much one way
/// as the other, and a bit string does not differ from itself.
pub proof fn lemma_hamming_u32(a: Hamming<u32>, b: Hamming<u32>)
    ensures
        Hamming::<u32>::gap(&a, &b) <= 32,
        Hamming::<u32>::gap(&a, &b) == Hamming::<u32>::gap(&b, &a),
        Hamming::<u32>::gap(&a, &a) == 0,
{
    let (x, y) = (a.0, b.0);
    assert(x ^ y == y ^ x) by (bit_vector);
    assert(x ^ x == 0) by (bit_vector);
    lemma_limits();
    lemma_popcount_bound((x ^ y) as nat, 32);
}

/// Two bit strings of 64 bits differ in at most 64 bits, as much one way
/// as the other, and a bit string does not differ from itself.
pub proof fn lemma_hamming_u64(a: Hamming<u64>, b: Hamming<u64>)
    ensures
        Hamming::<u64>::gap(&a, &b) <= 64,
        Hamming::<u64>::gap(&a, &b) == Hamming::<u64>::gap(&b, &a),
        Hamming::<u64>::gap(&a, &a) == 0,
{
    let (x, y) = (a.0, b.0);
    assert(x ^ y == y ^ x) by (bit_vector);
    assert(x ^ x == 0) by (bit_vector);
    lemma_limits();
    lemma_popcount_bound((x ^ y) as nat, 64);
}

/// Two bit strings of 128 bits differ in at most 128 bits, as much one way
/// as the other, and a bit string does not differ from itself.
pub proof fn lemma_hamming_u128(a: Hamming<u128>, b: Hamming<u128>)
    ensures
        Hamming::<u128>::gap(&a, &b) <= 128,
        Hamming::<u128>::gap(&a, &b) == Hamming::<u128>::gap(&b, &a),
        Hamming::<u128>::gap(&a, &a) == 0,
{
    let (x, y) = (a.0, b.0);
    assert(x ^ y == y ^ x) by (bit_vector);
    assert(x ^ x == 0) by (bit_vector);
    lemma_limits();
    lemma_popcount_bound((x ^ y) as nat, 128);
}

} // verus!
