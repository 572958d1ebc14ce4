//! Operations shared by the fixed-length bitstring genomes.

use vstd::prelude::*;

use crate::random::{random_in, random_ratio};

verus! {

/// The length of every bitstring genome.
pub const GENOME_LENGTH: usize = 30;

/// A well-formed bitstring genome: `GENOME_LENGTH` binary digits.
pub open spec fn is_bitstring(s: Seq<u8>) -> bool {
    s.len() == GENOME_LENGTH && forall|k: int| 0 <= k < s.len() ==> #[trigger] s[k] <= 1
}

/// The number of ones among the first `len` digits of `s`.
pub open spec fn ones(s: Seq<u8>, len: int) -> nat
    decreases len,
{
    if len <= 0 {
        0
    } else {
        ones(s, len - 1) + if s[len - 1] == 1 {
            1nat
        } else {
            0nat
        }
    }
}

/// The number of positions among the first `len` where `s` and `t` agree.
pub open spec fn agreements(s: Seq<u8>, t: Seq<u8>, len: int) -> nat
    decreases len,
{
    if len <= 0 {
        0
    } else {
        agreements(s, t, len - 1) + if s[len - 1] == t[len - 1] {
            1nat
        } else {
            0nat
        }
    }
}

/// `c0` and `c1` are the two splices of `x` and `y` at some cut index in
/// `[0, GENOME_LENGTH)`.
pub open spec fn spliced_at_some_cut(x: Seq<u8>, y: Seq<u8>, c0: Seq<u8>, c1: Seq<u8>) -> bool {
    exists|cut: int|
        0 <= cut < GENOME_LENGTH && c0 == #[trigger] x.subrange(0, cut) + y.subrange(
            cut,
            GENOME_LENGTH as int,
        ) && c1 == y.subrange(0, cut) + x.subrange(cut, GENOME_LENGTH as int)
}

/// `b` is `a`, or `a` with exactly one digit flipped.
pub open spec fn flipped_at_most_once(a: Seq<u8>, b: Seq<u8>) -> bool {
    b == a || exists|k: int| 0 <= k < GENOME_LENGTH && b == #[trigger] a.update(k, (1 - a[k]) as u8)
}

/// The reference pattern of the target-matching problems.
pub open spec fn target() -> Seq<u8> {
    seq![1u8, 0, 1, 0, 1, 1, 0, 1, 0, 1, 1, 1, 0, 1, 0, 1, 1, 1, 1, 1, 1, 1, 0, 1, 0, 1, 0, 0, 0, 0]
}

/// The reference pattern, as digits.
pub fn target_pattern() -> (r: Vec<u8>)
    ensures
        r@ == target(),
{
    let r: Vec<u8> = vec![1u8, 0, 1, 0, 1, 1, 0, 1, 0, 1, 1, 1, 0, 1, 0, 1, 1, 1, 1, 1, 1, 1, 0, 1, 0, 1, 0, 0, 0, 0];
    assert(r@ =~= target());
    r
}

/// The number of ones in `bits`.
pub fn count_ones(bits: &Vec<u8>) -> (r: u64)
    requires
        bits.len() <= GENOME_LENGTH,
    ensures
        r == ones(bits@, bits.len() as int),
{
    let mut count: u64 = 0;
    let mut k: usize = 0;
    while k < bits.len()
        invariant
            k <= bits.len() <= GENOME_LENGTH,
            count == ones(bits@, k as int),
            count <= k,
        decreases bits.len() - k,
    {
        if bits[k] == 1 {
            count = count + 1;
        }
        k = k + 1;
    }
    count
}

/// The number of positions where `bits` agrees with `pattern`.
pub fn count_matches(bits: &Vec<u8>, pattern: &Vec<u8>) -> (r: u64)
    requires
        bits.len() <= GENOME_LENGTH,
        bits.len() == pattern.len(),
    ensures
        r == agreements(bits@, pattern@, bits.len() as int),
{
    let mut count: u64 = 0;
    let mut k: usize = 0;
    while k < bits.len()
        invariant
            k <= bits.len() <= GENOME_LENGTH,
            bits.len() == pattern.len(),
            count == agreements(bits@, pattern@, k as int),
            count <= k,
        decreases bits.len() - k,
    {
        if bits[k] == pattern[k] {
            count = count + 1;
        }
        k = k + 1;
    }
    count
}

/// Single-point crossover at `index`: the head of one parent is spliced
/// with the tail of the other, and the other way round.
pub fn splice(x: &Vec<u8>, y: &Vec<u8>, index: usize) -> (r: (Vec<u8>, Vec<u8>))
    requires
        x.len() == y.len(),
        index <= x.len(),
    ensures
        r.0@ == x@.subrange(0, index as int) + y@.subrange(index as int, y.len() as int),
        r.1@ == y@.subrange(0, index as int) + x@.subrange(index as int, x.len() as int),
{
    let n = x.len();
    let mut child_0: Vec<u8> = Vec::new();
    let mut child_1: Vec<u8> = Vec::new();
    let mut k: usize = 0;
    while k < n
        invariant
            k <= n == x.len() == y.len(),
            index <= n,
            child_0.len() == k,
            child_1.len() == k,
            forall|q: int| 0 <= q < k ==> #[trigger] child_0@[q] == if q < index {
                x@[q]
            } else {
                y@[q]
            },
            forall|q: int| 0 <= q < k ==> #[trigger] child_1@[q] == if q < index {
                y@[q]
            } else {
                x@[q]
            },
        decreases n - k,
    {
        if k < index {
            child_0.push(x[k]);
            child_1.push(y[k]);
        } else {
            child_0.push(y[k]);
            child_1.push(x[k]);
        }
        k = k + 1;
    }
    assert(child_0@ =~= x@.subrange(0, index as int) + y@.subrange(index as int, n as int));
    assert(child_1@ =~= y@.subrange(0, index as int) + x@.subrange(index as int, n as int));
    (child_0, child_1)
}

/// `bits` with the digit at `index` flipped.
pub fn flip_bit(bits: &Vec<u8>, index: usize) -> (r: Vec<u8>)
    requires
        index < bits.len(),
        bits[index as int] <= 1,
    ensures
        r@ == bits@.update(index as int, (1 - bits[index as int]) as u8),
{
    let mut next = bits.clone();
    assert(next@ =~= bits@);
    let b = next[index];
    next.set(index, 1 - b);
    next
}

/// Splicing two bitstrings keeps them bitstrings.
pub proof fn lemma_splice_bitstring(x: Seq<u8>, y: Seq<u8>, index: int)
    requires
        is_bitstring(x),
        is_bitstring(y),
        0 <= index <= GENOME_LENGTH,
    ensures
        is_bitstring(x.subrange(0, index) + y.subrange(index, y.len() as int)),
{
    let c = x.subrange(0, index) + y.subrange(index, y.len() as int);
    assert forall|k: int| 0 <= k < c.len() implies #[trigger] c[k] <= 1 by {
        if k < index {
            assert(c[k] == x[k]);
        } else {
            assert(c[k] == y[k]);
        }
    }
}

/// Crossover at a uniformly random cut index in `[0, GENOME_LENGTH)`.
pub(crate) fn random_splice(x: &Vec<u8>, y: &Vec<u8>) -> (r: (Vec<u8>, Vec<u8>))
    requires
        is_bitstring(x@),
        is_bitstring(y@),
    ensures
        is_bitstring(r.0@),
        is_bitstring(r.1@),
        spliced_at_some_cut(x@, y@, r.0@, r.1@),
{
    let index = random_in(0, GENOME_LENGTH);
    proof {
        lemma_splice_bitstring(x@, y@, index as int);
        lemma_splice_bitstring(y@, x@, index as int);
    }
    splice(x, y, index)
}

/// With probability one in a hundred, one uniformly chosen digit is flipped;
/// otherwise an unchanged copy.
pub(crate) fn random_flip(bits: &Vec<u8>) -> (r: Vec<u8>)
    requires
        is_bitstring(bits@),
    ensures
        is_bitstring(r@),
        flipped_at_most_once(bits@, r@),
{
    if random_ratio(1, 100) {
        let index = random_in(0, GENOME_LENGTH);
        let r = flip_bit(bits, index);
        assert forall|k: int| 0 <= k < r.len() implies #[trigger] r@[k] <= 1 by {
            assert(bits@[k] <= 1);
        }
        r
    } else {
        let r = bits.clone();
        assert(r@ =~= bits@);
        r
    }
}

/// `GENOME_LENGTH` digits, each 0 or 1 with even chance.
pub(crate) fn random_bits() -> (r: Vec<u8>)
    ensures
        is_bitstring(r@),
{
    let mut bits: Vec<u8> = Vec::new();
    let mut k: usize = 0;
    while k < GENOME_LENGTH
        invariant
            k <= GENOME_LENGTH,
            bits.len() == k,
            forall|q: int| 0 <= q < k ==> #[trigger] bits@[q] <= 1,
        decreases GENOME_LENGTH - k,
    {
        if random_ratio(1, 2) {
            bits.push(1);
        } else {
            bits.push(0);
        }
        k = k + 1;
    }
    bits
}

/// Whether `bits` is a well-formed bitstring genome.
pub fn check_bitstring(bits: &Vec<u8>) -> (r: bool)
    ensures
        r == is_bitstring(bits@),
{
    if bits.len() != GENOME_LENGTH {
        return false;
    }
    let mut k: usize = 0;
    while k < bits.len()
        invariant
            k <= bits.len(),
            forall|q: int| 0 <= q < k ==> #[trigger] bits@[q] <= 1,
        decreases bits.len() - k,
    {
        if bits[k] > 1 {
            return false;
        }
        k = k + 1;
    }
    true
}

} // verus!
